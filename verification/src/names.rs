//! Decoding of composite type names: `Vec<T>`, `HashMap<K, V>`, `(A, B)`.
//!
//! A type name is the key of a definition, but it may also spell out a
//! generic or a tuple. The functions here take such a name apart. Commas
//! split a parameter list only where they stand outside every bracket.

use crate::text::{chars_of, find_first, find_last, lemma_trimmed_len, trim, trimmed};
use vstd::prelude::*;

verus! {

/// The base and the parameter text of a name of the form `base<parameters>`:
/// the text before the first `<`, and the text between it and the last `>`.
pub open spec fn generic_parts(name: Seq<char>) -> Option<(Seq<char>, Seq<char>)> {
    match (name.index_of_first('<'), name.index_of_last('>')) {
        (Some(open), Some(close)) => if 0 <= open < close < name.len() {
            Some((name.take(open), name.subrange(open + 1, close)))
        } else {
            None
        },
        _ => None,
    }
}

pub open spec fn is_opening(c: char) -> bool {
    c == '<' || c == '(' || c == '['
}

pub open spec fn is_closing(c: char) -> bool {
    c == '>' || c == ')' || c == ']'
}

/// The bracket depth after `c`, where `depth` brackets were open before it.
pub open spec fn depth_after(depth: nat, c: char) -> nat {
    if is_opening(c) {
        depth + 1
    } else if is_closing(c) && depth > 0 {
        (depth - 1) as nat
    } else {
        depth
    }
}

/// The index of the first comma in `s` that stands outside every bracket,
/// where `depth` brackets are open at the start of `s`.
pub open spec fn top_level_comma(s: Seq<char>, depth: nat) -> Option<int>
    decreases s.len(),
{
    if s.len() == 0 {
        None
    } else if s[0] == ',' && depth == 0 {
        Some(0)
    } else {
        match top_level_comma(s.drop_first(), depth_after(depth, s[0])) {
            Some(k) => Some(k + 1),
            None => None,
        }
    }
}

pub proof fn lemma_top_level_comma_bound(s: Seq<char>, depth: nat)
    ensures
        match top_level_comma(s, depth) {
            Some(k) => 0 <= k < s.len() && s[k] == ',',
            None => true,
        },
    decreases s.len(),
{
    if s.len() > 0 && !(s[0] == ',' && depth == 0) {
        lemma_top_level_comma_bound(s.drop_first(), depth_after(depth, s[0]));
    }
}

/// The key and the value type of a map's parameter text: what stands before
/// and after its first top-level comma, trimmed.
pub open spec fn map_parts(params: Seq<char>) -> Option<(Seq<char>, Seq<char>)> {
    match top_level_comma(params, 0) {
        Some(c) => Some((trimmed(params.take(c)), trimmed(params.skip(c + 1)))),
        None => None,
    }
}

/// The element types of a tuple's parameter text: the pieces between its
/// top-level commas, trimmed. There is always at least one piece.
pub open spec fn tuple_parts(s: Seq<char>) -> Seq<Seq<char>>
    decreases s.len(),
{
    match top_level_comma(s, 0) {
        Some(c) => {
            if 0 <= c < s.len() {
                seq![trimmed(s.take(c))] + tuple_parts(s.skip(c + 1))
            } else {
                seq![trimmed(s)]
            }
        },
        None => seq![trimmed(s)],
    }
}

/// The summed length of `names`, one more for each of them.
pub open spec fn total_size(names: Seq<Seq<char>>) -> nat
    decreases names.len(),
{
    if names.len() == 0 {
        0
    } else {
        total_size(names.drop_last()) + names.last().len() + 1
    }
}

pub proof fn lemma_total_size_add(a: Seq<Seq<char>>, b: Seq<Seq<char>>)
    ensures
        total_size(a + b) == total_size(a) + total_size(b),
    decreases b.len(),
{
    if b.len() == 0 {
        assert(a + b =~= a);
    } else {
        assert((a + b).drop_last() =~= a + b.drop_last());
        lemma_total_size_add(a, b.drop_last());
    }
}

/// Each of `names` is shorter than their total size.
pub proof fn lemma_total_size_member(names: Seq<Seq<char>>, i: int)
    requires
        0 <= i < names.len(),
    ensures
        names[i].len() < total_size(names),
    decreases names.len(),
{
    if i < names.len() - 1 {
        lemma_total_size_member(names.drop_last(), i);
    }
}

/// The pieces of a parameter text are together no longer than the text.
pub proof fn lemma_tuple_parts_size(s: Seq<char>)
    ensures
        tuple_parts(s).len() >= 1,
        total_size(tuple_parts(s)) <= s.len() + 1,
    decreases s.len(),
{
    lemma_top_level_comma_bound(s, 0);
    match top_level_comma(s, 0) {
        Some(c) => {
            let head = seq![trimmed(s.take(c))];
            lemma_trimmed_len(s.take(c));
            lemma_tuple_parts_size(s.skip(c + 1));
            lemma_total_size_add(head, tuple_parts(s.skip(c + 1)));
            assert(head.drop_last() =~= Seq::<Seq<char>>::empty());
            assert(total_size(head.drop_last()) == 0);
            assert(total_size(head) == head[0].len() + 1);
        },
        None => {
            let only = seq![trimmed(s)];
            lemma_trimmed_len(s);
            assert(only.drop_last() =~= Seq::<Seq<char>>::empty());
            assert(total_size(only.drop_last()) == 0);
            assert(total_size(only) == only[0].len() + 1);
        },
    }
}

/// The key and the value type of a map are shorter than its parameter text.
pub proof fn lemma_map_parts_len(params: Seq<char>)
    ensures
        match map_parts(params) {
            Some((key, value)) => key.len() < params.len() && value.len() < params.len(),
            None => true,
        },
{
    lemma_top_level_comma_bound(params, 0);
    match top_level_comma(params, 0) {
        Some(c) => {
            lemma_trimmed_len(params.take(c));
            lemma_trimmed_len(params.skip(c + 1));
        },
        None => {},
    }
}

/// Splits a generic type name such as `Vec<MyType>` into `Vec` and `MyType`.
pub fn parse_generic_type(name: &str) -> (r: Option<(&str, &str)>)
    ensures
        match r {
            Some((base, param)) => generic_parts(name@) == Some((base@, param@)),
            None => generic_parts(name@) is None,
        },
{
    let chars = chars_of(name);
    let open = find_first(&chars, '<');
    let close = find_last(&chars, '>');
    match (open, close) {
        (Some(open), Some(close)) => {
            if open < close {
                proof {
                    chars@.index_of_last_ensures('>');
                }
                let base = name.substring_char(0, open);
                let param = name.substring_char(open + 1, close);
                Some((base, param))
            } else {
                None
            }
        },
        _ => None,
    }
}

/// The index of the first top-level comma of `chars` at or after `start`.
fn find_top_level_comma(chars: &Vec<char>, start: usize) -> (r: Option<usize>)
    requires
        start <= chars.len(),
    ensures
        match r {
            Some(c) => start <= c < chars.len() && top_level_comma(chars@.skip(start as int), 0)
                == Some(c - start),
            None => top_level_comma(chars@.skip(start as int), 0) is None,
        },
{
    let ghost s = chars@.skip(start as int);
    let mut i: usize = start;
    let mut depth: usize = 0;
    assert(s.skip(0) =~= s);
    while i < chars.len()
        invariant
            start <= i <= chars.len(),
            depth <= i - start,
            s == chars@.skip(start as int),
            top_level_comma(s, 0) == match top_level_comma(s.skip(i - start), depth as nat) {
                Some(k) => Some(k + (i - start)),
                None => None,
            },
        decreases chars.len() - i,
    {
        let c: char = chars[i];
        assert(s.skip(i - start)[0] == c);
        assert(s.skip(i - start).drop_first() =~= s.skip(i - start + 1));
        if c == ',' && depth == 0 {
            return Some(i);
        }
        if c == '<' || c == '(' || c == '[' {
            depth += 1;
        } else if (c == '>' || c == ')' || c == ']') && depth > 0 {
            depth -= 1;
        }
        i += 1;
    }
    None
}

/// Splits a map's parameter text such as `KeyType, ValueType` into `KeyType`
/// and `ValueType`.
pub fn parse_map_types(params: &str) -> (r: Option<(&str, &str)>)
    ensures
        match r {
            Some((key, value)) => map_parts(params@) == Some((key@, value@)),
            None => map_parts(params@) is None,
        },
{
    let chars = chars_of(params);
    assert(chars@.skip(0) =~= chars@);
    match find_top_level_comma(&chars, 0) {
        Some(c) => {
            let key = trim(params.substring_char(0, c));
            let value = trim(params.substring_char(c + 1, chars.len()));
            Some((key, value))
        },
        None => None,
    }
}

/// Splits a tuple's parameter text such as `Type1, Type2` into `Type1` and
/// `Type2`.
pub fn parse_tuple_types(param: &str) -> (r: Vec<&str>)
    ensures
        r@.len() == tuple_parts(param@).len(),
        forall|i: int| 0 <= i < r@.len() ==> r@[i]@ == tuple_parts(param@)[i],
{
    let chars = chars_of(param);
    let n: usize = chars.len();
    let ghost s = chars@;
    let mut out: Vec<&str> = Vec::new();
    let ghost mut done: Seq<Seq<char>> = Seq::empty();
    let mut start: usize = 0;
    assert(s.skip(0) =~= s);
    assert(done + tuple_parts(s) =~= tuple_parts(s));
    loop
        invariant_except_break
            done + tuple_parts(s.skip(start as int)) == tuple_parts(s),
        invariant
            start <= n,
            n == chars.len(),
            s == chars@,
            s == param@,
            done.len() == out@.len(),
            forall|i: int| 0 <= i < out@.len() ==> out@[i]@ == done[i],
        ensures
            out@.len() == tuple_parts(s).len(),
            forall|i: int| 0 <= i < out@.len() ==> out@[i]@ == tuple_parts(s)[i],
        decreases n - start,
    {
        let ghost rest = s.skip(start as int);
        match find_top_level_comma(&chars, start) {
            Some(c) => {
                let piece = trim(param.substring_char(start, c));
                out.push(piece);
                proof {
                    assert(rest.take(c - start) =~= s.subrange(start as int, c as int));
                    assert(rest.skip(c - start + 1) =~= s.skip(c + 1));
                    done = done.push(piece@);
                    assert(done + tuple_parts(s.skip(c + 1)) =~= tuple_parts(s));
                }
                start = c + 1;
            },
            None => {
                let piece = trim(param.substring_char(start, n));
                out.push(piece);
                proof {
                    assert(rest =~= s.subrange(start as int, n as int));
                    done = done.push(piece@);
                    assert(done =~= tuple_parts(s));
                }
                break ;
            },
        }
    }
    out
}

} // verus!
