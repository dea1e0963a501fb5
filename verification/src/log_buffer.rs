//! A bounded, line-oriented log buffer.
//!
//! Lines are appended at the back. Whenever the running byte total exceeds
//! [`MAX_BYTES`], the oldest lines are dropped until it fits again. The tail
//! view hands out the last [`MAX_TAIL_LINES`] lines as one string.

use std::collections::VecDeque;
use vstd::prelude::*;

verus! {

/// Upper bound on the bytes a buffer keeps.
pub const MAX_BYTES: usize = 524288;

/// Upper bound on the lines a tail view shows.
pub const MAX_TAIL_LINES: usize = 100;

/// Bytes that one line occupies: the length of its UTF-8 encoding.
pub open spec fn line_bytes(line: Seq<char>) -> nat {
    vstd::utf8::encode_utf8(line).len()
}

/// Sum of the bytes of all lines.
pub open spec fn total_bytes(lines: Seq<Seq<char>>) -> nat
    decreases lines.len(),
{
    if lines.len() == 0 {
        0
    } else {
        total_bytes(lines.drop_last()) + line_bytes(lines.last())
    }
}

/// What is left of `lines` once the oldest ones have been dropped, one at a
/// time, for as long as the byte total is over the cap.
pub open spec fn retained(lines: Seq<Seq<char>>) -> Seq<Seq<char>>
    decreases lines.len(),
{
    if lines.len() > 0 && total_bytes(lines) > MAX_BYTES {
        retained(lines.drop_first())
    } else {
        lines
    }
}

/// The lines a tail view shows: the last `MAX_TAIL_LINES` of them, or all.
pub open spec fn tail_lines(lines: Seq<Seq<char>>) -> Seq<Seq<char>> {
    if lines.len() > MAX_TAIL_LINES {
        lines.subrange(lines.len() - MAX_TAIL_LINES, lines.len() as int)
    } else {
        lines
    }
}

/// Splitting off the oldest line splits the byte total accordingly.
pub proof fn lemma_total_bytes_drop_first(lines: Seq<Seq<char>>)
    requires
        lines.len() > 0,
    ensures
        total_bytes(lines) == line_bytes(lines.first()) + total_bytes(lines.drop_first()),
    decreases lines.len(),
{
    if lines.len() == 1 {
        assert(lines.drop_last() =~= lines.drop_first());
    } else {
        lemma_total_bytes_drop_first(lines.drop_last());
        assert(lines.drop_last().drop_first() =~= lines.drop_first().drop_last());
        assert(lines.drop_last().first() == lines.first());
        assert(lines.drop_first().last() == lines.last());
    }
}

/// `retained` yields the longest suffix of `lines` whose byte total is
/// within the cap.
pub proof fn lemma_retained_longest_suffix(lines: Seq<Seq<char>>) -> (k: int)
    ensures
        0 <= k <= lines.len(),
        retained(lines) == lines.subrange(k, lines.len() as int),
        total_bytes(retained(lines)) <= MAX_BYTES,
        forall|j: int|
            0 <= j < k ==> total_bytes(#[trigger] lines.subrange(j, lines.len() as int))
                > MAX_BYTES,
    decreases lines.len(),
{
    if lines.len() > 0 && total_bytes(lines) > MAX_BYTES {
        let rest = lines.drop_first();
        let k1 = lemma_retained_longest_suffix(rest);
        let k = k1 + 1;
        assert(rest.subrange(k1, rest.len() as int) =~= lines.subrange(k, lines.len() as int));
        assert forall|j: int| 0 <= j < k implies total_bytes(
            #[trigger] lines.subrange(j, lines.len() as int),
        ) > MAX_BYTES by {
            if j == 0 {
                assert(lines.subrange(0, lines.len() as int) =~= lines);
            } else {
                assert(rest.subrange(j - 1, rest.len() as int) =~= lines.subrange(
                    j,
                    lines.len() as int,
                ));
            }
        }
        k
    } else {
        assert(lines.subrange(0, lines.len() as int) =~= lines);
        0
    }
}

/// What a buffer that held `buffer` holds after `lines` were pushed into
/// it one by one.
pub open spec fn after_pushes(buffer: Seq<Seq<char>>, lines: Seq<Seq<char>>) -> Seq<Seq<char>>
    decreases lines.len(),
{
    if lines.len() == 0 {
        buffer
    } else {
        retained(after_pushes(buffer, lines.drop_last()).push(lines.last()))
    }
}

/// Dropping old lines before a push changes nothing: what is dropped
/// early would be dropped after the push as well.
pub proof fn lemma_retained_push(lines: Seq<Seq<char>>, line: Seq<char>)
    ensures
        retained(retained(lines).push(line)) == retained(lines.push(line)),
    decreases lines.len(),
{
    if lines.len() > 0 && total_bytes(lines) > MAX_BYTES {
        let longer = lines.push(line);
        assert(longer.drop_last() =~= lines);
        assert(longer.drop_first() =~= lines.drop_first().push(line));
        lemma_retained_push(lines.drop_first(), line);
    }
}

/// Whatever is pushed, and in how many steps, a buffer holds the longest
/// suffix of all that came that is within the cap: pushing `lines` one by
/// one leaves what dropping the oldest lines of the whole leaves, and the
/// byte total of that is within the cap.
pub proof fn lemma_after_pushes(buffer: Seq<Seq<char>>, lines: Seq<Seq<char>>)
    requires
        retained(buffer) == buffer,
    ensures
        after_pushes(buffer, lines) == retained(buffer + lines),
        total_bytes(after_pushes(buffer, lines)) <= MAX_BYTES,
    decreases lines.len(),
{
    if lines.len() == 0 {
        assert(buffer + lines =~= buffer);
    } else {
        let earlier = lines.drop_last();
        lemma_after_pushes(buffer, earlier);
        lemma_retained_push(buffer + earlier, lines.last());
        assert((buffer + earlier).push(lines.last()) =~= buffer + lines);
    }
    lemma_retained_longest_suffix(buffer + lines);
}

/// A tail view never shows more than `MAX_TAIL_LINES` lines, and it shows
/// the newest ones.
pub proof fn lemma_tail_lines_bounded(lines: Seq<Seq<char>>)
    ensures
        tail_lines(lines).len() <= MAX_TAIL_LINES,
        tail_lines(lines).len() <= lines.len(),
        forall|i: int|
            0 <= i < tail_lines(lines).len() ==> #[trigger] tail_lines(lines)[i] == lines[lines.len()
                - tail_lines(lines).len() + i],
{
}

/// Captured output lines of one stream, oldest first.
#[derive(Clone, Debug)]
pub struct LogBuffer {
    logs: VecDeque<String>,
    total_bytes: usize,
}

impl View for LogBuffer {
    type V = Seq<Seq<char>>;

    /// The buffered lines, oldest first.
    closed spec fn view(&self) -> Seq<Seq<char>> {
        self.logs@.map_values(|line: String| line@)
    }
}

impl LogBuffer {
    /// The running byte total that the buffer keeps.
    pub closed spec fn byte_count(&self) -> nat {
        self.total_bytes as nat
    }

    /// The running byte total is the sum over the buffered lines and is
    /// within the cap.
    pub open spec fn wf(&self) -> bool {
        &&& self.byte_count() == total_bytes(self@)
        &&& self.byte_count() <= MAX_BYTES
    }

    /// An empty buffer.
    pub fn new() -> (buffer: Self)
        ensures
            buffer.wf(),
            buffer@ == Seq::<Seq<char>>::empty(),
    {
        let buffer = LogBuffer { logs: VecDeque::new(), total_bytes: 0 };
        assert(buffer@ =~= Seq::<Seq<char>>::empty());
        buffer
    }

    /// Appends `line` and then drops the oldest lines while the byte total
    /// is over `MAX_BYTES`.
    pub fn push(&mut self, line: String)
        requires
            old(self).wf(),
        ensures
            final(self).wf(),
            final(self)@ == retained(old(self)@.push(line@)),
    {
        let added: usize = line.as_str().as_bytes().len();
        let ghost appended = self@.push(line@);
        self.logs.push_back(line);
        assert(self@ =~= appended);
        assert(appended.drop_last() =~= old(self)@);
        let mut total: u128 = self.total_bytes as u128 + added as u128;
        while total > MAX_BYTES as u128 && self.logs.len() > 0
            invariant
                total == total_bytes(self@),
                retained(self@) == retained(appended),
            decreases self.logs.len(),
        {
            let ghost before = self@;
            let evicted = self.logs.pop_front();
            if let Some(old_line) = evicted {
                proof {
                    lemma_total_bytes_drop_first(before);
                    assert(self@ =~= before.drop_first());
                }
                let freed: usize = old_line.as_str().as_bytes().len();
                total = total - freed as u128;
            }
        }
        proof {
            if self.logs.len() == 0 {
                assert(self@.len() == 0);
            }
        }
        self.total_bytes = total as usize;
    }

    /// The last `MAX_TAIL_LINES` lines as one string, and whether older
    /// lines were left out.
    pub fn tail(&self) -> (out: (String, bool))
        ensures
            out.0@ == tail_lines(self@).flatten(),
            tail_lines(self@).len() <= MAX_TAIL_LINES,
            out.1 == (self@.len() > MAX_TAIL_LINES),
    {
        let len: usize = self.logs.len();
        let start: usize = if len > MAX_TAIL_LINES {
            len - MAX_TAIL_LINES
        } else {
            0
        };
        let mut text = String::new();
        let mut i: usize = start;
        assert(self@.subrange(start as int, start as int) =~= Seq::<Seq<char>>::empty());
        while i < len
            invariant
                start <= i <= len,
                len == self.logs.len(),
                len == self@.len(),
                text@ == self@.subrange(start as int, i as int).flatten(),
            decreases len - i,
        {
            proof {
                broadcast use Seq::lemma_flatten_push;

                assert(self@.subrange(start as int, i as int + 1) =~= self@.subrange(
                    start as int,
                    i as int,
                ).push(self@[i as int]));
            }
            text.append(self.logs[i].as_str());
            i = i + 1;
        }
        assert(self@.subrange(start as int, len as int) =~= tail_lines(self@));
        (text, len > MAX_TAIL_LINES)
    }

    /// The running byte total.
    pub fn total_bytes(&self) -> (n: usize)
        ensures
            n == self.byte_count(),
    {
        self.total_bytes
    }

    /// The number of buffered lines.
    pub fn line_count(&self) -> (n: usize)
        ensures
            n == self@.len(),
    {
        self.logs.len()
    }
}

} // verus!
