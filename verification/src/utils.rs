//! Small display helpers.

use vstd::prelude::*;
use vstd::string::*;

verus! {

/// The masked form of a character sequence: its first and last characters
/// with an asterisk for everything in between; empty when there is nothing
/// after the first character.
pub open spec fn masked(s: Seq<char>) -> Seq<char> {
    if s.len() <= 1 {
        Seq::<char>::empty()
    } else {
        seq![s[0]] + Seq::new((s.len() - 2) as nat, |k: int| '*') + seq![s.last()]
    }
}

/// Mask a secret for display: keep the first and last characters and hide
/// the rest behind asterisks; a single-character input masks to nothing.
pub fn first_and_last_character(input: &str) -> (result: String)
    requires
        input@.len() >= 1,
    ensures
        result@ == masked(input@),
{
    let n = input.unicode_len();
    let mut result = String::new();
    if n == 1 {
        assert(result@ =~= masked(input@));
        return result;
    }
    let first = input.substring_char(0, 1);
    result.append(first);
    assert(result@ =~= seq![input@[0]] + Seq::new(0, |k: int| '*'));
    let mut i: usize = 0;
    while i < n - 2
        invariant
            2 <= n == input@.len(),
            0 <= i <= n - 2,
            result@ == seq![input@[0]] + Seq::new(i as nat, |k: int| '*'),
        decreases n - 2 - i,
    {
        let star = "*";
        proof {
            reveal_strlit("*");
        }
        result.append(star);
        assert(result@ =~= seq![input@[0]] + Seq::new((i + 1) as nat, |k: int| '*'));
        i += 1;
    }
    let last = input.substring_char(n - 1, n);
    result.append(last);
    assert(last@ =~= seq![input@.last()]);
    assert(result@ =~= masked(input@));
    result
}

} // verus!
