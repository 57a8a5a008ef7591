//! Character-level helpers for the text the nodes exchange: the display
//! name of a file path and the media names a text file lists.
use vstd::prelude::*;

use crate::counting::lemma_push_to_set;

verus! {

/// The characters of a string, in order.
pub fn chars_of(s: &str) -> (r: Vec<char>)
    ensures
        r@ == s@,
{
    let mut out: Vec<char> = Vec::new();
    for c in it: s.chars()
        invariant
            out@ == it.seq().take(it.index()),
    {
        out.push(c);
    }
    out
}

/// The string made of the given characters, in order.
///
/// Trusted: wraps collecting `std::slice::Iter<char>` into a `String`
/// (`FromIterator<char>`), which std documents as appending each char in turn.
#[verifier::external_body]
pub(crate) fn string_of(v: &Vec<char>) -> (r: String)
    ensures
        r@ == v@,
{
    v.iter().collect()
}

/// Position of the first `'.'`, or the length when there is none.
pub open spec fn first_dot(s: Seq<char>) -> nat
    decreases s.len(),
{
    if s.len() == 0 {
        0
    } else if s[0] == '.' {
        0
    } else {
        1 + first_dot(s.drop_first())
    }
}

/// What follows the last `'/'` (the whole sequence when there is none).
pub open spec fn last_segment(p: Seq<char>) -> Seq<char>
    decreases p.len(),
{
    if p.len() == 0 {
        p
    } else if p.last() == '/' {
        Seq::empty()
    } else {
        last_segment(p.drop_last()).push(p.last())
    }
}

/// The name under which a file path is shown: its last segment, up to the
/// first `'.'` of that segment (the file type is left out).
pub open spec fn display_name(s: Seq<char>) -> Seq<char> {
    let seg = last_segment(s);
    seg.take(first_dot(seg) as int)
}

proof fn lemma_first_dot(s: Seq<char>, i: int)
    requires
        0 <= i <= s.len(),
        forall|j: int| 0 <= j < i ==> s[j] != '.',
        i == s.len() || s[i] == '.',
    ensures
        first_dot(s) == i,
    decreases i,
{
    if i > 0 {
        assert forall|j: int| 0 <= j < i - 1 implies s.drop_first()[j] != '.' by {
            assert(s.drop_first()[j] == s[j + 1]);
        }
        if i < s.len() {
            assert(s.drop_first()[i - 1] == s[i]);
        }
        lemma_first_dot(s.drop_first(), i - 1);
    }
}

/// The display name of a file path: the last segment of the path up to
/// that segment's first `'.'`.
pub fn obtain_file_display_name(file_path: String) -> (r: String)
    ensures
        r@ == display_name(file_path@),
{
    let cs = chars_of(file_path.as_str());
    let mut res: Vec<char> = Vec::new();
    let mut stopped = false;
    let mut i: usize = 0;
    while i < cs.len()
        invariant
            0 <= i <= cs@.len(),
            stopped == (first_dot(last_segment(cs@.take(i as int))) < last_segment(cs@.take(i as int)).len()),
            res@ == display_name(cs@.take(i as int)),
        decreases cs@.len() - i,
    {
        let c = cs[i];
        let ghost seg = last_segment(cs@.take(i as int));
        assert(cs@.take(i + 1).drop_last() =~= cs@.take(i as int));
        assert(cs@.take(i + 1).last() == c);
        if c == '/' {
            res = Vec::new();
            stopped = false;
            assert(last_segment(cs@.take(i + 1)) =~= Seq::<char>::empty());
            assert(res@ =~= display_name(cs@.take(i + 1)));
        } else {
            assert(last_segment(cs@.take(i + 1)) == seg.push(c));
            proof {
                lemma_first_dot_push(seg, c);
            }
            if !stopped {
                if c == '.' {
                    stopped = true;
                } else {
                    res.push(c);
                }
            }
            assert(res@ =~= display_name(cs@.take(i + 1)));
        }
        i = i + 1;
    }
    assert(cs@.take(i as int) =~= cs@);
    string_of(&res)
}

/// Where the first `'.'` of a sequence with one more character lies.
proof fn lemma_first_dot_push(s: Seq<char>, c: char)
    ensures
        first_dot(s) <= s.len(),
        first_dot(s) < s.len() ==> first_dot(s.push(c)) == first_dot(s) && s.push(c).take(first_dot(s) as int)
            =~= s.take(first_dot(s) as int),
        first_dot(s) == s.len() && c == '.' ==> first_dot(s.push(c)) == s.len() && s.push(c).take(s.len() as int) =~= s,
        first_dot(s) == s.len() && c != '.' ==> first_dot(s.push(c)) == s.len() + 1 && s.push(c).take(
            s.len() + 1 as int,
        ) =~= s.push(c),
{
    lemma_first_dot_bound(s);
    let d = first_dot(s) as int;
    let t = s.push(c);
    assert forall|j: int| 0 <= j < d implies t[j] != '.' by {
        lemma_before_first_dot(s, j);
    }
    if d < s.len() {
        lemma_first_dot_at(s);
        lemma_first_dot(t, d);
    } else if c == '.' {
        lemma_first_dot(t, d);
    } else {
        lemma_first_dot(t, d + 1);
    }
}

/// The first `'.'`, when there is one, is at `first_dot`.
proof fn lemma_first_dot_at(s: Seq<char>)
    ensures
        first_dot(s) < s.len() ==> s[first_dot(s) as int] == '.',
    decreases s.len(),
{
    if s.len() > 0 && s[0] != '.' {
        lemma_first_dot_at(s.drop_first());
    }
}

/// The `'\n'`-terminated lines of `s`, each without its `'\r'` characters,
/// given the characters `cur` already read on the current line.
pub open spec fn lines_from(s: Seq<char>, cur: Seq<char>) -> Seq<Seq<char>>
    decreases s.len(),
{
    if s.len() == 0 {
        Seq::empty()
    } else if s[0] == '\n' {
        seq![cur] + lines_from(s.drop_first(), Seq::empty())
    } else if s[0] == '\r' {
        lines_from(s.drop_first(), cur)
    } else {
        lines_from(s.drop_first(), cur.push(s[0]))
    }
}

/// The media names a text file lists: the display name of each of its
/// complete lines (a last line without `'\n'` lists nothing).
pub open spec fn listed_media(text: Seq<char>) -> Set<Seq<char>> {
    lines_from(text, Seq::empty()).map_values(|l: Seq<char>| display_name(l)).to_set()
}

proof fn lemma_lines_step(s: Seq<char>, i: int, cur: Seq<char>)
    requires
        0 <= i < s.len(),
    ensures
        lines_from(s.skip(i), cur) == if s[i] == '\n' {
            seq![cur] + lines_from(s.skip(i + 1), Seq::empty())
        } else if s[i] == '\r' {
            lines_from(s.skip(i + 1), cur)
        } else {
            lines_from(s.skip(i + 1), cur.push(s[i]))
        },
{
    assert(s.skip(i).drop_first() =~= s.skip(i + 1));
    assert(s.skip(i)[0] == s[i]);
}

/// Splits a text file into the names of the media it refers to, one per
/// line, each name once.
pub fn divide_text_file(file_str: String) -> (r: Vec<String>)
    ensures
        r@.map_values(|n: String| n@).to_set() == listed_media(file_str@),
        forall|a: int, b: int| 0 <= a < b < r@.len() ==> r@[a]@ != r@[b]@,
{
    let cs = chars_of(file_str.as_str());
    let ghost all = lines_from(cs@, Seq::empty());
    let mut res: Vec<String> = Vec::new();
    let mut tmp: Vec<char> = Vec::new();
    let ghost mut done: Seq<Seq<char>> = Seq::empty();
    let mut i: usize = 0;
    assert(cs@.skip(0) =~= cs@);
    while i < cs.len()
        invariant
            0 <= i <= cs@.len(),
            all == lines_from(cs@, Seq::empty()),
            done + lines_from(cs@.skip(i as int), tmp@) == all,
            res@.map_values(|n: String| n@).to_set() == done.map_values(|l: Seq<char>| display_name(l)).to_set(),
            forall|a: int, b: int| 0 <= a < b < res@.len() ==> res@[a]@ != res@[b]@,
        decreases cs@.len() - i,
    {
        let c = cs[i];
        proof {
            lemma_lines_step(cs@, i as int, tmp@);
        }
        if c != '\r' && c != '\n' {
            tmp.push(c);
        } else if c == '\n' {
            let line = string_of(&tmp);
            let name = obtain_file_display_name(line);
            let ghost old_res = res@;
            let ghost old_done = done;
            insert_name(&mut res, name);
            proof {
                done = done.push(tmp@);
                assert(done + lines_from(cs@.skip(i + 1), Seq::empty()) =~= old_done + (seq![tmp@] + lines_from(cs@.skip(i + 1), Seq::empty())));
                assert(done.map_values(|l: Seq<char>| display_name(l)) =~= old_done.map_values(|l: Seq<char>| display_name(l)).push(display_name(tmp@)));
                lemma_push_to_set(old_done.map_values(|l: Seq<char>| display_name(l)), display_name(tmp@));
            }
            tmp = Vec::new();
        }
        i = i + 1;
    }
    proof {
        assert(cs@.skip(i as int) =~= Seq::<char>::empty());
        assert(done =~= all);
    }
    res
}

/// Adds `name` to a list of distinct names unless an equal one is there.
fn insert_name(names: &mut Vec<String>, name: String)
    requires
        forall|a: int, b: int| 0 <= a < b < old(names)@.len() ==> old(names)@[a]@ != old(names)@[b]@,
    ensures
        final(names)@.map_values(|n: String| n@).to_set() == old(names)@.map_values(|n: String| n@).to_set().insert(name@),
        forall|a: int, b: int| 0 <= a < b < final(names)@.len() ==> final(names)@[a]@ != final(names)@[b]@,
{
    let ghost before = names@.map_values(|n: String| n@);
    let mut k: usize = 0;
    while k < names.len()
        invariant
            0 <= k <= names@.len(),
            names@ == old(names)@,
            forall|a: int, b: int| 0 <= a < b < names@.len() ==> names@[a]@ != names@[b]@,
            before == names@.map_values(|n: String| n@),
            forall|j: int| 0 <= j < k ==> names@[j]@ != name@,
        decreases names@.len() - k,
    {
        if names[k] == name {
            proof {
                assert(before[k as int] == name@);
                assert(before.to_set().insert(name@) =~= before.to_set());
            }
            return;
        }
        k = k + 1;
    }
    let ghost nv = name@;
    names.push(name);
    proof {
        assert(names@.map_values(|n: String| n@) =~= before.push(nv));
        lemma_push_to_set(before, nv);
    }
}

proof fn lemma_before_first_dot(s: Seq<char>, j: int)
    requires
        0 <= j < first_dot(s),
    ensures
        s[j] != '.',
    decreases s.len(),
{
    if j > 0 {
        lemma_first_dot_bound(s.drop_first());
        lemma_before_first_dot(s.drop_first(), j - 1);
        assert(s.drop_first()[j - 1] == s[j]);
    }
}

proof fn lemma_last_segment_chars(p: Seq<char>)
    ensures
        forall|i: int| 0 <= i < last_segment(p).len() ==> last_segment(p)[i] != '/' && exists|j: int|
            0 <= j < p.len() && p[j] == #[trigger] last_segment(p)[i],
    decreases p.len(),
{
    if p.len() > 0 && p.last() != '/' {
        lemma_last_segment_chars(p.drop_last());
        let q = last_segment(p.drop_last());
        assert forall|i: int| 0 <= i < last_segment(p).len() implies last_segment(p)[i] != '/' && exists|j: int|
            0 <= j < p.len() && p[j] == #[trigger] last_segment(p)[i] by {
            if i < q.len() {
                let j = choose|j: int| 0 <= j < p.drop_last().len() && p.drop_last()[j] == q[i];
                assert(p[j] == last_segment(p)[i]);
            } else {
                assert(p[p.len() - 1] == last_segment(p)[i]);
            }
        }
    }
}

/// A display name holds no `'/'` and no `'.'`: it is one path segment,
/// without any extension.
pub proof fn lemma_display_name_clean(s: Seq<char>)
    ensures
        !display_name(s).contains('/'),
        !display_name(s).contains('.'),
{
    let seg = last_segment(s);
    lemma_first_dot_bound(seg);
    lemma_last_segment_chars(s);
    assert forall|i: int| 0 <= i < display_name(s).len() implies display_name(s)[i] != '/' && display_name(s)[i] != '.' by {
        assert(display_name(s)[i] == seg[i]);
        lemma_before_first_dot(seg, i);
    }
}

proof fn lemma_first_dot_bound(s: Seq<char>)
    ensures
        first_dot(s) <= s.len(),
    decreases s.len(),
{
    if s.len() > 0 && s[0] != '.' {
        lemma_first_dot_bound(s.drop_first());
    }
}

} // verus!
