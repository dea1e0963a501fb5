//! Session keys: four characters, each an upper-case letter or a digit.

use rand::Rng;
use vstd::prelude::*;

verus! {

/// The number of characters in a session key.
pub const KEY_LENGTH: usize = 4;

/// The number of characters that a position of a session key can hold.
pub const CHARSET_LENGTH: usize = 36;

/// The characters of session keys, in the order in which they are numbered.
pub open spec fn charset() -> Seq<char> {
    "ABCDEFGHIJKLMNOPQRSTUVWXYZ0123456789"@
}

/// `key` has the form of a session key.
pub open spec fn is_session_key(key: Seq<char>) -> bool {
    &&& key.len() == KEY_LENGTH
    &&& forall|i: int| 0 <= i < key.len() ==> charset().contains(#[trigger] key[i])
}

/// The session key whose characters have the given numbers.
pub open spec fn key_of(first: int, second: int, third: int, fourth: int) -> Seq<char> {
    seq![charset()[first], charset()[second], charset()[third], charset()[fourth]]
}

/// There are `CHARSET_LENGTH` characters, and each key made of four of them
/// is a session key.
pub proof fn lemma_key_of_is_session_key(first: int, second: int, third: int, fourth: int)
    requires
        0 <= first < CHARSET_LENGTH,
        0 <= second < CHARSET_LENGTH,
        0 <= third < CHARSET_LENGTH,
        0 <= fourth < CHARSET_LENGTH,
    ensures
        charset().len() == CHARSET_LENGTH,
        is_session_key(key_of(first, second, third, fourth)),
{
    reveal_strlit("ABCDEFGHIJKLMNOPQRSTUVWXYZ0123456789");
    let key = key_of(first, second, third, fourth);
    assert(key[0] == charset()[first]);
    assert(key[1] == charset()[second]);
    assert(key[2] == charset()[third]);
    assert(key[3] == charset()[fourth]);
}

/// Every session key is made of four characters of the set: it is
/// `key_of` of their numbers.
pub proof fn lemma_session_key_indices(key: Seq<char>) -> (indices: (int, int, int, int))
    requires
        is_session_key(key),
    ensures
        0 <= indices.0 < CHARSET_LENGTH,
        0 <= indices.1 < CHARSET_LENGTH,
        0 <= indices.2 < CHARSET_LENGTH,
        0 <= indices.3 < CHARSET_LENGTH,
        key == key_of(indices.0, indices.1, indices.2, indices.3),
{
    reveal_strlit("ABCDEFGHIJKLMNOPQRSTUVWXYZ0123456789");
    let letters = charset();
    assert(letters.contains(key[0]));
    assert(letters.contains(key[1]));
    assert(letters.contains(key[2]));
    assert(letters.contains(key[3]));
    let first = choose|i: int| 0 <= i < letters.len() && letters[i] == key[0];
    let second = choose|i: int| 0 <= i < letters.len() && letters[i] == key[1];
    let third = choose|i: int| 0 <= i < letters.len() && letters[i] == key[2];
    let fourth = choose|i: int| 0 <= i < letters.len() && letters[i] == key[3];
    assert(key =~= key_of(first, second, third, fourth));
    (first, second, third, fourth)
}

/// `rand::rngs::ThreadRng`, the handle to a thread's random number
/// generator. Nothing is known of what it holds.
#[verifier::external_type_specification]
#[verifier::external_body]
pub struct ExThreadRng(rand::rngs::ThreadRng);

/// `rand::thread_rng`: the calling thread's random number generator.
/// Nothing is claimed of the generator that comes back. The call fails
/// only if the system has no randomness to seed the generator with.
pub assume_specification[ rand::thread_rng ]() -> (rng: rand::rngs::ThreadRng);

/// `rand::Rng::gen_range` on the half-open range from 0 to `bound`: some
/// number below `bound`. The range must not be empty.
#[verifier::external_body]
fn random_below(rng: &mut rand::rngs::ThreadRng, bound: usize) -> (index: usize)
    requires
        bound > 0,
    ensures
        index < bound,
{
    rng.gen_range(0..bound)
}

/// The session key whose characters have the given numbers in the
/// character set.
pub fn session_key_from_indices(first: usize, second: usize, third: usize, fourth: usize) -> (key:
    String)
    requires
        first < CHARSET_LENGTH,
        second < CHARSET_LENGTH,
        third < CHARSET_LENGTH,
        fourth < CHARSET_LENGTH,
    ensures
        key@ == key_of(first as int, second as int, third as int, fourth as int),
        is_session_key(key@),
{
    let letters: &str = "ABCDEFGHIJKLMNOPQRSTUVWXYZ0123456789";
    proof {
        reveal_strlit("ABCDEFGHIJKLMNOPQRSTUVWXYZ0123456789");
        lemma_key_of_is_session_key(first as int, second as int, third as int, fourth as int);
    }
    let mut key = String::new();
    key.append(letters.substring_ascii(first, first + 1));
    key.append(letters.substring_ascii(second, second + 1));
    key.append(letters.substring_ascii(third, third + 1));
    key.append(letters.substring_ascii(fourth, fourth + 1));
    assert(key@ =~= key_of(first as int, second as int, third as int, fourth as int));
    key
}

/// A session key drawn at random: each of its characters is chosen
/// independently from the character set.
pub fn generate_session_key() -> (key: String)
    ensures
        is_session_key(key@),
{
    let mut rng = rand::thread_rng();
    let first = random_below(&mut rng, CHARSET_LENGTH);
    let second = random_below(&mut rng, CHARSET_LENGTH);
    let third = random_below(&mut rng, CHARSET_LENGTH);
    let fourth = random_below(&mut rng, CHARSET_LENGTH);
    session_key_from_indices(first, second, third, fourth)
}

} // verus!
