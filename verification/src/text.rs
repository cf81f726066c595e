//! Strings of spaces and padding.

use vstd::prelude::*;
use vstd::string::StringExecFns;
use crate::model::{blanks, newline, text_len};

verus! {

/// A string of `n` spaces.
pub fn spaces(n: usize) -> (s: String)
    ensures
        s@ == blanks(n as nat),
{
    let mut s = String::new();
    let mut i: usize = 0;
    proof {
        reveal_strlit(" ");
    }
    while i < n
        invariant
            i <= n,
            s@ == blanks(i as nat),
            " "@ == seq![' '],
        decreases n - i,
    {
        s.append(" ");
        i += 1;
        proof {
            assert(s@ =~= blanks(i as nat));
        }
    }
    proof {
        assert(" "@ =~= seq![' ']);
    }
    s
}

/// A line break followed by `n` spaces.
pub fn nl_spaces(n: usize) -> (s: String)
    ensures
        s@ == newline(n),
{
    let mut s = String::new();
    proof {
        reveal_strlit("\n");
        assert("\n"@ =~= seq!['\n']);
    }
    s.append("\n");
    let sp = spaces(n);
    s.append(sp.as_str());
    proof {
        assert(s@ =~= newline(n));
    }
    s
}

/// A line break followed by `i` spaces.
pub fn nl_space(i: usize) -> (s: String)
    ensures
        s@ == newline(i),
{
    nl_spaces(i)
}

/// `l` clones of `x`.
pub fn replicate<T: Clone>(x: T, l: usize) -> (v: Vec<T>)
    ensures
        v@.len() == l,
        forall|i: int| 0 <= i < l ==> cloned(x, #[trigger] v@[i]),
{
    let mut res: Vec<T> = Vec::new();
    let mut i: usize = 0;
    while i < l
        invariant
            i <= l,
            res@.len() == i,
            forall|j: int| 0 <= j < i ==> cloned(x, #[trigger] res@[j]),
        decreases l - i,
    {
        res.push(x.clone());
        i += 1;
    }
    res
}

/// `count` times the character `c`.
pub open spec fn repeated(c: char, count: nat) -> Seq<char> {
    Seq::new(count, |i: int| c)
}

/// A string of `count` times the character `c`.
fn repeat(c: char, count: usize) -> (s: String)
    ensures
        s@ == repeated(c, count as nat),
{
    let one = char_string(c);
    let mut s = String::new();
    let mut i: usize = 0;
    while i < count
        invariant
            i <= count,
            s@ == repeated(c, i as nat),
            one@ == seq![c],
        decreases count - i,
    {
        s.append(one.as_str());
        i += 1;
        proof {
            assert(s@ =~= repeated(c, i as nat));
        }
    }
    s
}

/// `String::from(c)`: the string of the one character `c`.
#[verifier::external_body]
pub(crate) fn char_string(c: char) -> (s: String)
    ensures
        s@ == seq![c],
{
    String::from(c)
}

/// `s` with `c` added at its end until it is `l` bytes long.
pub fn pad_right(c: char, l: usize, s: String) -> (r: String)
    ensures
        r@ == s@ + repeated(c, if l > text_len(s@) { (l - text_len(s@)) as nat } else { 0 }),
{
    let len = s.as_str().len();
    if l > len {
        let padding = repeat(c, l - len);
        let mut res = s;
        res.append(padding.as_str());
        res
    } else {
        proof {
            assert(s@ + repeated(c, 0) =~= s@);
        }
        s
    }
}

/// `s` with `c` added at its start until it is `l` bytes long.
pub fn pad_left(c: char, l: usize, s: String) -> (r: String)
    ensures
        r@ == repeated(c, if l > text_len(s@) { (l - text_len(s@)) as nat } else { 0 }) + s@,
{
    let len = s.as_str().len();
    if l > len {
        let mut res = repeat(c, l - len);
        res.append(s.as_str());
        res
    } else {
        proof {
            assert(repeated(c, 0) + s@ =~= s@);
        }
        s
    }
}

} // verus!
