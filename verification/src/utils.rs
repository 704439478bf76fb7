use vstd::prelude::*;

use crate::json::{
    json_entries_view, json_seq_view, json_view, lemma_entries_view, lemma_seq_view, Json,
    JsonValue,
};
use crate::strings::{push_char, split_at_char, split_char, str_equal};
use crate::strmap::StrMap;

verus! {

/// `std::path::MAIN_SEPARATOR`: `\` on Windows, `/` elsewhere.
#[verifier::external_body]
fn main_separator() -> (c: char)
    ensures
        c == '/' || c == '\\',
{
    std::path::MAIN_SEPARATOR
}

/// `s` with every `from` replaced by `to`.
pub open spec fn replace_char(s: Seq<char>, from: char, to: char) -> Seq<char> {
    s.map_values(|c: char| if c == from { to } else { c })
}

/// The Archive.org form of a path whose separator is `sep`: separators
/// become `/`, and a `/` is put in front when there is none.
pub open spec fn norm_filepath_spec(path: Seq<char>, sep: char) -> Seq<char> {
    let r = replace_char(path, sep, '/');
    if r.len() > 0 && r[0] == '/' {
        r
    } else {
        seq!['/'] + r
    }
}

/// Normalize a path whose separator is `sep` into Archive.org-style
/// forward-slash form with a leading `/`.
pub fn norm_filepath_with(path: &str, sep: char) -> (r: String)
    ensures
        r@ == norm_filepath_spec(path@, sep),
{
    let n = path.unicode_len();
    let mut out = String::new();
    let mut i: usize = 0;
    while i < n
        invariant
            i <= n,
            n == path@.len(),
            out@ == replace_char(path@.take(i as int), sep, '/'),
        decreases n - i,
    {
        let c = path.get_char(i);
        push_char(&mut out, if c == sep { '/' } else { c });
        assert(replace_char(path@.take(i + 1), sep, '/') =~= replace_char(path@.take(i as int), sep, '/').push(if c == sep { '/' } else { c }));
        i = i + 1;
    }
    assert(path@.take(n as int) =~= path@);
    if out.as_str().unicode_len() > 0 && out.as_str().get_char(0) == '/' {
        out
    } else {
        let mut r = String::new();
        push_char(&mut r, '/');
        r.append(out.as_str());
        r
    }
}

/// Normalize a path into Archive.org-style forward-slash form with a leading `/`.
///
/// The separator replaced is the platform's (`std::path::MAIN_SEPARATOR`).
pub fn norm_filepath(path: &str) -> (r: String)
    ensures
        r@ == norm_filepath_spec(path@, '/') || r@ == norm_filepath_spec(path@, '\\'),
{
    norm_filepath_with(path, main_separator())
}

/// A normalized path starts with `/` and normalizing it again changes nothing.
pub proof fn law_norm_filepath_idempotent(path: Seq<char>, sep: char)
    requires
        sep == '/' || sep == '\\',
    ensures
        norm_filepath_spec(path, sep).len() > 0,
        norm_filepath_spec(path, sep)[0] == '/',
        norm_filepath_spec(norm_filepath_spec(path, sep), sep) == norm_filepath_spec(path, sep),
{
    let r = norm_filepath_spec(path, sep);
    let r2 = replace_char(r, sep, '/');
    assert(r2 =~= r);
}

/// The characters that `char::is_whitespace` accepts (Unicode White_Space).
pub open spec fn is_unicode_whitespace(c: char) -> bool {
    let u = c as u32;
    ||| 0x09 <= u <= 0x0D
    ||| u == 0x20
    ||| u == 0x85
    ||| u == 0xA0
    ||| u == 0x1680
    ||| 0x2000 <= u <= 0x200A
    ||| u == 0x2028
    ||| u == 0x2029
    ||| u == 0x202F
    ||| u == 0x205F
    ||| u == 0x3000
}

/// A value must be quoted in an HTTP header when it has a character outside
/// ASCII or a whitespace character.
pub open spec fn needs_quote_spec(s: Seq<char>) -> bool {
    exists|i: int| 0 <= i < s.len() && ((s[i] as u32) > 0x7F || is_unicode_whitespace(#[trigger] s[i]))
}

/// Return true when a string must be quoted for HTTP header use.
pub fn needs_quote(value: &str) -> (r: bool)
    ensures
        r == needs_quote_spec(value@),
{
    let n = value.unicode_len();
    let mut i: usize = 0;
    while i < n
        invariant
            i <= n,
            n == value@.len(),
            forall|j: int|
                0 <= j < i ==> !((value@[j] as u32) > 0x7F || is_unicode_whitespace(
                    #[trigger] value@[j],
                )),
        decreases n - i,
    {
        let c = value.get_char(i);
        if c > '\u{7f}' || c == ' ' || ('\t' <= c && c <= '\r') {
            assert((value@[i as int] as u32) > 0x7F || is_unicode_whitespace(value@[i as int]));
            return true;
        }
        i = i + 1;
    }
    false
}

/// All the pieces of all the patterns, split at `|`, in order.
pub open spec fn flatten_pipe_spec(patterns: Seq<Seq<char>>) -> Seq<Seq<char>>
    decreases patterns.len(),
{
    if patterns.len() == 0 {
        Seq::empty()
    } else {
        flatten_pipe_spec(patterns.drop_last()) + split_char(patterns.last(), '|')
    }
}

/// Flatten a list of pipe-delimited patterns into a single list.
pub fn flatten_pipe_patterns(patterns: &[&str]) -> (r: Vec<String>)
    ensures
        r@.map_values(|p: String| p@) == flatten_pipe_spec(patterns@.map_values(|p: &str| p@)),
{
    let mut out: Vec<String> = Vec::new();
    let mut i: usize = 0;
    while i < patterns.len()
        invariant
            i <= patterns@.len(),
            out@.map_values(|p: String| p@) == flatten_pipe_spec(
                patterns@.take(i as int).map_values(|p: &str| p@),
            ),
        decreases patterns@.len() - i,
    {
        let pieces = split_at_char(patterns[i], '|');
        let ghost before = out@;
        let mut j: usize = 0;
        while j < pieces.len()
            invariant
                j <= pieces@.len(),
                out@.map_values(|p: String| p@) == before.map_values(|p: String| p@)
                    + pieces@.take(j as int).map_values(|p: String| p@),
            decreases pieces@.len() - j,
        {
            let ghost prev = out@;
            let piece = pieces[j].clone();
            assert(piece@ == pieces@[j as int]@);
            out.push(piece);
            assert(pieces@.take(j + 1).map_values(|p: String| p@) =~= pieces@.take(
                j as int,
            ).map_values(|p: String| p@).push(piece@));
            assert(out@.map_values(|p: String| p@) =~= prev.map_values(|p: String| p@).push(
                piece@,
            ));
            assert(out@.map_values(|p: String| p@) =~= before.map_values(|p: String| p@)
                + pieces@.take(j + 1).map_values(|p: String| p@));
            j = j + 1;
        }
        proof {
            assert(pieces@.take(j as int) =~= pieces@);
            let t = patterns@.take(i + 1).map_values(|p: &str| p@);
            assert(t.drop_last() =~= patterns@.take(i as int).map_values(|p: &str| p@));
        }
        i = i + 1;
    }
    assert(patterns@.take(i as int) =~= patterns@);
    out
}

/// Flattening a concatenation of pattern lists is concatenating their flattenings.
pub proof fn law_flatten_concat(a: Seq<Seq<char>>, b: Seq<Seq<char>>)
    ensures
        flatten_pipe_spec(a + b) == flatten_pipe_spec(a) + flatten_pipe_spec(b),
    decreases b.len(),
{
    if b.len() == 0 {
        assert(a + b =~= a);
    } else {
        law_flatten_concat(a, b.drop_last());
        assert((a + b).drop_last() =~= a + b.drop_last());
    }
}

/// Pieces joined with `c` between them.
pub open spec fn join_with(pieces: Seq<Seq<char>>, c: char) -> Seq<char>
    decreases pieces.len(),
{
    if pieces.len() == 0 {
        Seq::empty()
    } else if pieces.len() == 1 {
        pieces[0]
    } else {
        join_with(pieces.drop_last(), c) + seq![c] + pieces.last()
    }
}

/// How many times `c` occurs in `s`.
pub open spec fn count_char(s: Seq<char>, c: char) -> nat
    decreases s.len(),
{
    if s.len() == 0 {
        0
    } else {
        count_char(s.drop_last(), c) + if s.last() == c {
            1nat
        } else {
            0nat
        }
    }
}

proof fn lemma_split_join(s: Seq<char>, c: char)
    ensures
        split_char(s, c).len() == count_char(s, c) + 1,
        join_with(split_char(s, c), c) == s,
    decreases s.len(),
{
    if s.len() > 0 {
        let init = s.drop_last();
        lemma_split_join(init, c);
        let prev = split_char(init, c);
        if s.last() == c {
            assert(split_char(s, c) == prev.push(Seq::<char>::empty()));
            assert(prev.push(Seq::<char>::empty()).drop_last() =~= prev);
            assert(join_with(split_char(s, c), c) =~= init + seq![c]);
            assert(init + seq![c] =~= s);
        } else {
            let last = prev.last().push(s.last());
            let r = prev.update(prev.len() - 1, last);
            assert(split_char(s, c) == r);
            if prev.len() > 1 {
                assert(r.drop_last() =~= prev.drop_last());
                assert(join_with(r, c) =~= join_with(prev, c).push(s.last()));
            } else {
                assert(join_with(r, c) =~= join_with(prev, c).push(s.last()));
            }
            assert(init.push(s.last()) =~= s);
        }
    } else {
        assert(join_with(split_char(s, c), c) =~= s);
    }
}

/// A single pattern flattens to its pieces between `|`: there is one more
/// piece than there are `|`, and joining the pieces with `|` gives the
/// pattern back (an empty pattern gives one empty piece).
pub proof fn law_flatten_single(s: Seq<char>)
    ensures
        flatten_pipe_spec(seq![s]) == split_char(s, '|'),
        flatten_pipe_spec(seq![s]).len() == count_char(s, '|') + 1,
        join_with(flatten_pipe_spec(seq![s]), '|') == s,
{
    let one = seq![s];
    assert(one.drop_last() =~= Seq::<Seq<char>>::empty());
    assert(one.last() == s);
    assert(flatten_pipe_spec(one.drop_last()) == Seq::<Seq<char>>::empty());
    assert(flatten_pipe_spec(one) == flatten_pipe_spec(one.drop_last()) + split_char(s, '|'));
    assert(Seq::<Seq<char>>::empty() + split_char(s, '|') =~= split_char(s, '|'));
    lemma_split_join(s, '|');
}

/// `v` with every object member whose value is the string `t` removed, at
/// every depth of objects and arrays.
pub open spec fn delete_items_spec(v: Json, t: Seq<char>) -> Json
    decreases v,
{
    match v {
        Json::Arr(a) => Json::Arr(delete_items_seq(a, t)),
        Json::Obj(es) => Json::Obj(delete_items_entries(es, t)),
        _ => v,
    }
}

pub open spec fn delete_items_seq(a: Seq<Json>, t: Seq<char>) -> Seq<Json>
    decreases a,
{
    if a.len() == 0 {
        Seq::empty()
    } else {
        delete_items_seq(a.drop_last(), t).push(delete_items_spec(a.last(), t))
    }
}

pub open spec fn delete_items_entries(es: Seq<(Seq<char>, Json)>, t: Seq<char>) -> Seq<
    (Seq<char>, Json),
>
    decreases es,
{
    if es.len() == 0 {
        Seq::empty()
    } else {
        let rest = delete_items_entries(es.drop_last(), t);
        if es.last().1 == Json::Str(t) {
            rest
        } else {
            rest.push((es.last().0, delete_items_spec(es.last().1, t)))
        }
    }
}

/// Recursively delete the object members whose value is the string
/// `to_delete`, in objects at any depth, arrays included.
#[verifier::loop_isolation(false)]
pub fn delete_items_from_dict(d: &JsonValue, to_delete: &str) -> (r: JsonValue)
    ensures
        r@ == delete_items_spec(d@, to_delete@),
    decreases d,
{
    match d {
        JsonValue::Array(a) => {
            let mut out: Vec<JsonValue> = Vec::new();
            let mut i: usize = 0;
            while i < a.len()
                invariant
                    i <= a@.len(),
                    json_seq_view(out@) == delete_items_seq(json_seq_view(a@.take(i as int)), to_delete@),
                decreases a@.len() - i,
            {
                proof {
                    assert(decreases_to!(*d => a@[i as int]));
                }
                let item = delete_items_from_dict(&a[i], to_delete);
                proof {
                    let t = a@.take(i as int);
                    assert(t.push(a@[i as int]) =~= a@.take(i + 1));
                    assert(out@.push(item).drop_last() =~= out@);
                    assert(t.push(a@[i as int]).drop_last() =~= t);
                    lemma_seq_view(t.push(a@[i as int]));
                    lemma_seq_view(t);
                    assert(json_seq_view(t.push(a@[i as int])).drop_last() =~= json_seq_view(t));
                }
                out.push(item);
                i = i + 1;
            }
            assert(a@.take(i as int) =~= a@);
            JsonValue::Array(out)
        },
        JsonValue::Object(m) => {
            let mut out: Vec<(String, JsonValue)> = Vec::new();
            let mut i: usize = 0;
            while i < m.entries.len()
                invariant
                    i <= m.entries@.len(),
                    json_entries_view(out@) == delete_items_entries(
                        json_entries_view(m.entries@.take(i as int)),
                        to_delete@,
                    ),
                decreases m.entries@.len() - i,
            {
                let ghost t = m.entries@.take(i as int);
                proof {
                    assert(t.push(m.entries@[i as int]) =~= m.entries@.take(i + 1));
                    assert(t.push(m.entries@[i as int]).drop_last() =~= t);
                    lemma_entries_view(t.push(m.entries@[i as int]));
                    lemma_entries_view(t);
                    assert(json_entries_view(t.push(m.entries@[i as int])).drop_last()
                        =~= json_entries_view(t));
                }
                let removed = match &m.entries[i].1 {
                    JsonValue::String(s) => str_equal(s.as_str(), to_delete),
                    _ => false,
                };
                if !removed {
                    proof {
                        assert(decreases_to!(*d => m.entries@[i as int].1));
                    }
                    let item = (m.entries[i].0.clone(), delete_items_from_dict(&m.entries[i].1, to_delete));
                    assert(out@.push(item).drop_last() =~= out@);
                    out.push(item);
                }
                i = i + 1;
            }
            assert(m.entries@.take(i as int) =~= m.entries@);
            JsonValue::Object(StrMap { entries: out })
        },
        _ => d.duplicate(),
    }
}

/// No object member, at any depth of objects and arrays, has the string `t`
/// as its value.
pub open spec fn free_of_tag(v: Json, t: Seq<char>) -> bool
    decreases v,
{
    match v {
        Json::Arr(a) => forall|i: int| 0 <= i < a.len() ==> free_of_tag(#[trigger] a[i], t),
        Json::Obj(es) => forall|i: int|
            0 <= i < es.len() ==> (#[trigger] es[i]).1 != Json::Str(t) && free_of_tag(es[i].1, t),
        _ => true,
    }
}

proof fn lemma_delete_items_json(v: Json, t: Seq<char>)
    ensures
        free_of_tag(delete_items_spec(v, t), t),
        free_of_tag(v, t) ==> delete_items_spec(v, t) == v,
        v != Json::Str(t) ==> delete_items_spec(v, t) != Json::Str(t),
    decreases v,
{
    match v {
        Json::Arr(a) => {
            lemma_delete_items_seq(a, t);
        },
        Json::Obj(es) => {
            lemma_delete_items_entries(es, t);
        },
        _ => {},
    }
}

proof fn lemma_delete_items_seq(a: Seq<Json>, t: Seq<char>)
    ensures
        delete_items_seq(a, t).len() == a.len(),
        forall|i: int| 0 <= i < a.len() ==> free_of_tag(#[trigger] delete_items_seq(a, t)[i], t),
        (forall|i: int| 0 <= i < a.len() ==> free_of_tag(#[trigger] a[i], t)) ==> delete_items_seq(a, t) == a,
    decreases a,
{
    if a.len() > 0 {
        let init = a.drop_last();
        lemma_delete_items_seq(init, t);
        lemma_delete_items_json(a.last(), t);
        let r = delete_items_seq(a, t);
        assert(r == delete_items_seq(init, t).push(delete_items_spec(a.last(), t)));
        assert forall|i: int| 0 <= i < a.len() implies free_of_tag(#[trigger] r[i], t) by {
            if i < a.len() - 1 {
                assert(r[i] == delete_items_seq(init, t)[i]);
            }
        }
        if forall|i: int| 0 <= i < a.len() ==> free_of_tag(#[trigger] a[i], t) {
            assert forall|i: int| 0 <= i < init.len() implies free_of_tag(#[trigger] init[i], t) by {
                assert(init[i] == a[i]);
            }
            assert(free_of_tag(a[a.len() - 1], t));
            assert(r =~= a);
        }
    } else {
        assert(delete_items_seq(a, t) =~= a);
    }
}

proof fn lemma_delete_items_entries(es: Seq<(Seq<char>, Json)>, t: Seq<char>)
    ensures
        forall|i: int|
            0 <= i < delete_items_entries(es, t).len() ==> (#[trigger] delete_items_entries(es, t)[i]).1
                != Json::Str(t) && free_of_tag(delete_items_entries(es, t)[i].1, t),
        (forall|i: int|
            0 <= i < es.len() ==> (#[trigger] es[i]).1 != Json::Str(t) && free_of_tag(es[i].1, t))
            ==> delete_items_entries(es, t) == es,
    decreases es,
{
    if es.len() > 0 {
        let init = es.drop_last();
        lemma_delete_items_entries(init, t);
        lemma_delete_items_json(es.last().1, t);
        let rest = delete_items_entries(init, t);
        let r = delete_items_entries(es, t);
        if es.last().1 != Json::Str(t) {
            assert(r == rest.push((es.last().0, delete_items_spec(es.last().1, t))));
            assert forall|i: int| 0 <= i < r.len() implies (#[trigger] r[i]).1 != Json::Str(t)
                && free_of_tag(r[i].1, t) by {
                if i < rest.len() {
                    assert(r[i] == rest[i]);
                }
            }
        }
        if forall|i: int|
            0 <= i < es.len() ==> (#[trigger] es[i]).1 != Json::Str(t) && free_of_tag(es[i].1, t) {
            assert forall|i: int| 0 <= i < init.len() implies (#[trigger] init[i]).1 != Json::Str(t)
                && free_of_tag(init[i].1, t) by {
                assert(init[i] == es[i]);
            }
            assert(es[es.len() - 1].1 != Json::Str(t));
            assert(r =~= es);
        }
    } else {
        assert(delete_items_entries(es, t) =~= es);
    }
}

/// After deleting the members whose value is `t`, none is left at any depth,
/// and deleting again changes nothing.
pub proof fn law_delete_items_complete(v: Json, t: Seq<char>)
    ensures
        free_of_tag(delete_items_spec(v, t), t),
        delete_items_spec(delete_items_spec(v, t), t) == delete_items_spec(v, t),
{
    lemma_delete_items_json(v, t);
    lemma_delete_items_json(delete_items_spec(v, t), t);
}

} // verus!
