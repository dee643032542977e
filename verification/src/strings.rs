//! Small executable helpers over strings, specified by character view.

use vstd::prelude::*;

verus! {

/// String equality over the character views.
pub fn str_eq(a: &str, b: &str) -> (r: bool)
    ensures
        r == (a@ == b@),
{
    let sa: String = a.to_owned();
    let sb: String = b.to_owned();
    sa == sb
}

/// Whether `s` ends in `'/'` followed by `name`.
pub open spec fn spec_ends_with_slash_name(s: Seq<char>, name: Seq<char>) -> bool {
    s.len() > name.len() && s.subrange(s.len() - name.len() - 1, s.len() as int) == seq!['/']
        + name
}

/// Whether `s` ends in `'/'` followed by `name`.
pub fn ends_with_slash_name(s: &str, name: &str) -> (r: bool)
    ensures
        r == spec_ends_with_slash_name(s@, name@),
{
    let slen = s.unicode_len();
    let nlen = name.unicode_len();
    if slen <= nlen {
        return false;
    }
    let suffix = s.substring_char(slen - nlen - 1, slen);
    let mut expected = "/".to_owned();
    expected.append(name);
    proof {
        reveal_strlit("/");
        assert("/"@ =~= seq!['/']);
    }
    str_eq(suffix, expected.as_str())
}

} // verus!
