//! File paths as text, with `/` between their parts.

use vstd::prelude::*;
use crate::text::{chars_of, find_char, first_at, lemma_first_at, string_of};

verus! {

/// The path of `name` inside the directory `prefix`: `name` itself where it
/// starts at the root or `prefix` is empty, else `prefix`, one `/` unless
/// `prefix` ends in one, and `name`.
pub open spec fn joined(prefix: Seq<char>, name: Seq<char>) -> Seq<char> {
    if name.len() > 0 && name[0] == '/' {
        name
    } else if prefix.len() == 0 || prefix.last() == '/' {
        prefix + name
    } else {
        prefix + seq!['/'] + name
    }
}

/// The path of `name` inside the directory `prefix`.
pub fn join_path(prefix: &str, name: &str) -> (r: String)
    ensures
        r@ == joined(prefix@, name@),
{
    let p = chars_of(prefix);
    let n = chars_of(name);
    let mut r = String::new();
    if !(n.len() > 0 && n[0] == '/') {
        let mut i: usize = 0;
        while i < p.len()
            invariant
                0 <= i <= p.len(),
                r@ == p@.subrange(0, i as int),
            decreases p.len() - i,
        {
            r.push(p[i]);
            proof {
                assert(r@ =~= p@.subrange(0, i + 1));
            }
            i += 1;
        }
        proof {
            assert(p@.subrange(0, i as int) =~= p@);
        }
        if p.len() > 0 && p[p.len() - 1] != '/' {
            r.push('/');
        }
    }
    let ghost head = r@;
    let mut j: usize = 0;
    while j < n.len()
        invariant
            0 <= j <= n.len(),
            r@ == head + n@.subrange(0, j as int),
        decreases n.len() - j,
    {
        r.push(n[j]);
        proof {
            assert(r@ =~= head + n@.subrange(0, j + 1));
        }
        j += 1;
    }
    proof {
        assert(n@.subrange(0, j as int) =~= n@);
        assert(r@ =~= joined(prefix@, name@));
    }
    r
}

/// The parts of the path `s` from position `from` on: what stands between
/// its slashes, without the empty parts and the parts that are a single
/// dot.
pub open spec fn parts_from(s: Seq<char>, from: int) -> Seq<Seq<char>>
    decreases s.len() - from,
{
    if from < 0 || from >= s.len() {
        Seq::empty()
    } else {
        let end = first_at(s, '/', from);
        let rest = if from <= end < s.len() {
            parts_from(s, end + 1)
        } else {
            Seq::empty()
        };
        if from < end <= s.len() && s.subrange(from, end) != seq!['.'] {
            seq![s.subrange(from, end)] + rest
        } else {
            rest
        }
    }
}

/// The parts of the path `s`: a slash for the root where `s` starts at it,
/// a dot where `s` starts with one as a part of its own, and then what
/// stands between the slashes, without empty parts and further single
/// dots.
pub open spec fn parts_of(s: Seq<char>) -> Seq<Seq<char>> {
    if s.len() > 0 && s[0] == '/' {
        seq![seq!['/']] + parts_from(s, 1)
    } else if s.len() > 0 && s[0] == '.' && first_at(s, '/', 0) == 1 {
        seq![seq!['.']] + parts_from(s, 2)
    } else {
        parts_from(s, 0)
    }
}

/// The texts of a list of strings.
pub open spec fn names_view(v: Seq<String>) -> Seq<Seq<char>> {
    Seq::new(v.len(), |i: int| v[i]@)
}

/// A path has at most as many parts as characters.
pub proof fn lemma_parts_from_count(s: Seq<char>, from: int)
    requires
        0 <= from,
    ensures
        parts_from(s, from).len() <= if from <= s.len() {
            s.len() - from
        } else {
            0
        },
    decreases s.len() - from,
{
    if from < s.len() {
        lemma_first_at(s, '/', from);
        let end = first_at(s, '/', from);
        if end < s.len() {
            lemma_parts_from_count(s, end + 1);
        }
    }
}

/// The same for the whole path.
pub proof fn lemma_parts_count(s: Seq<char>)
    ensures
        parts_of(s).len() <= s.len(),
{
    lemma_parts_from_count(s, 0);
    lemma_parts_from_count(s, 1);
    lemma_parts_from_count(s, 2);
    if s.len() > 0 {
        lemma_first_at(s, '/', 0);
    }
}

/// Whether `chars[from..to]` is a single dot.
fn is_dot(chars: &Vec<char>, from: usize, to: usize) -> (r: bool)
    requires
        from <= to <= chars.len(),
    ensures
        r == (chars@.subrange(from as int, to as int) == seq!['.']),
{
    let r = to - from == 1 && chars[from] == '.';
    proof {
        let part = chars@.subrange(from as int, to as int);
        if r {
            assert(part =~= seq!['.']);
        } else if part == seq!['.'] {
            assert(part.len() == 1);
            assert(part[0] == '.');
        }
    }
    r
}

/// The parts of the path `path`.
pub fn components(path: &str) -> (parts: Vec<String>)
    ensures
        names_view(parts@) == parts_of(path@),
{
    let chars = chars_of(path);
    let mut parts: Vec<String> = Vec::new();
    let mut from: usize = 0;
    if chars.len() > 0 && chars[0] == '/' {
        parts.push(string_of(&chars, 0, 1));
        from = 1;
        proof {
            assert(chars@.subrange(0, 1) =~= seq!['/']);
            assert(names_view(parts@) =~= seq![seq!['/']]);
        }
    } else if chars.len() > 0 && chars[0] == '.' && find_char(&chars, '/', 0) == 1 {
        parts.push(string_of(&chars, 0, 1));
        from = 2;
        proof {
            assert(chars@.subrange(0, 1) =~= seq!['.']);
            assert(names_view(parts@) =~= seq![seq!['.']]);
        }
    }
    if from > chars.len() {
        from = chars.len();
    }
    let ghost head = names_view(parts@);
    proof {
        assert(parts_from(chars@, 2) == parts_from(chars@, from as int) || from == 0 || from == 1);
        assert(head + parts_from(chars@, from as int) =~= parts_of(chars@));
    }
    while from < chars.len()
        invariant
            0 <= from <= chars.len(),
            names_view(parts@) + parts_from(chars@, from as int) == parts_of(chars@),
        decreases chars.len() - from,
    {
        let end = find_char(&chars, '/', from);
        let ghost before = names_view(parts@);
        if end > from && !is_dot(&chars, from, end) {
            parts.push(string_of(&chars, from, end));
            proof {
                let part = chars@.subrange(from as int, end as int);
                assert(names_view(parts@) =~= before.push(part));
                assert(before + (seq![part] + parts_from(chars@, end + 1)) =~= before.push(part)
                    + parts_from(chars@, end + 1));
            }
        }
        proof {
            if end >= chars.len() {
                assert(parts_from(chars@, chars.len() as int) =~= Seq::<Seq<char>>::empty());
            }
        }
        from = if end < chars.len() {
            end + 1
        } else {
            end
        };
    }
    proof {
        assert(parts_from(chars@, from as int) =~= Seq::<Seq<char>>::empty());
        assert(names_view(parts@) + Seq::<Seq<char>>::empty() =~= names_view(parts@));
    }
    parts
}

} // verus!
