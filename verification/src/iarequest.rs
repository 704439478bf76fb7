use vstd::prelude::*;

use crate::interop::{json_diff, json_patch_diff, json_text, json_to_text};
use crate::json::{
    duplicate_map, json_entries_view, json_eq, json_equal, json_seq_view, json_view, lemma_entries_view,
    lemma_entries_view_insert, lemma_obj_get_view, lemma_seq_view, lemma_seq_view_push,
    model_get_json, obj_view, Json, JsonValue,
};
use crate::strings::{
    all_digits, digits_value, law_decimal2_digits, decimal, decimal2, find_char, find_char_index, lemma_find_char, parse_usize,
    parse_usize_str, push_char, push_decimal, push_str, split_at_char, split_char, str_equal,
    to_string,
};
use crate::strmap::{
    entries_insert, entry_keys, insert_index, key_index, lemma_insert_index_from,
    keys_sorted, law_insert_keeps_keys_sorted, lemma_key_index, lemma_model_insert_get,
    lemma_string_map_insert, lemma_string_map_keys, model_get, model_insert, model_keys, string_map_view, StrMap,
};
use crate::utils::{delete_items_from_dict, delete_items_spec, needs_quote, needs_quote_spec};

verus! {

/// Members of a JSON object.
pub type Entries = Seq<(Seq<char>, Json)>;

/// A key of the form `name[index]`: it holds both `[` and `]`.
pub open spec fn is_indexed_key_spec(k: Seq<char>) -> bool {
    k.contains('[') && k.contains(']')
}

/// The part of a key before its first `[`.
pub open spec fn base_key_spec(k: Seq<char>) -> Seq<char> {
    match find_char(k, '[') {
        Some(i) => k.take(i),
        None => k,
    }
}

/// Reading the index of a key slices between its first `[` and its first
/// `]`; that panics when the first `]` comes before the first `[`.
pub open spec fn key_index_panics(k: Seq<char>) -> bool {
    match (find_char(k, '['), find_char(k, ']')) {
        (Some(a), Some(b)) => b < a,
        _ => false,
    }
}

/// The index written between the first `[` and the first `]` of a key.
pub open spec fn key_index_value(k: Seq<char>) -> Option<usize> {
    match (find_char(k, '['), find_char(k, ']')) {
        (Some(a), Some(b)) => if a < b {
            parse_usize(k.subrange(a + 1, b))
        } else {
            None
        },
        _ => None,
    }
}

fn is_indexed_key(key: &str) -> (r: bool)
    ensures
        r == is_indexed_key_spec(key@),
{
    proof {
        lemma_find_char(key@, '[');
        lemma_find_char(key@, ']');
    }
    find_char_index(key, '[').is_some() && find_char_index(key, ']').is_some()
}

fn get_base_key(key: &str) -> (r: String)
    ensures
        r@ == base_key_spec(key@),
{
    proof {
        lemma_find_char(key@, '[');
    }
    match find_char_index(key, '[') {
        Some(i) => key.substring_char(0, i).to_owned(),
        None => to_string(key),
    }
}

fn get_index(key: &str) -> (r: Option<usize>)
    requires
        !key_index_panics(key@),
    ensures
        r == key_index_value(key@),
{
    proof {
        lemma_find_char(key@, '[');
        lemma_find_char(key@, ']');
    }
    let a = match find_char_index(key, '[') {
        Some(a) => a,
        None => return None,
    };
    let b = match find_char_index(key, ']') {
        Some(b) => b,
        None => return None,
    };
    if a >= b {
        return None;
    }
    parse_usize_str(key.substring_char(a + 1, b))
}

/// `k` followed by `[0]`.
pub open spec fn zero_index_key(k: Seq<char>) -> Seq<char> {
    k + "[0]"@
}

/// The members after adding, for each of the first `n` plain (not indexed)
/// keys of `orig`, the same value under `key[0]`.
pub open spec fn zero_keys_upto(orig: Entries, n: int) -> Entries
    decreases n,
{
    if n <= 0 || n > orig.len() {
        orig
    } else {
        let acc = zero_keys_upto(orig, n - 1);
        let e = orig[n - 1];
        if is_indexed_key_spec(e.0) {
            acc
        } else {
            model_insert(acc, zero_index_key(e.0), e.1)
        }
    }
}

/// The metadata that is worked on: with `insert`, every plain key also
/// appears as `key[0]`.
pub open spec fn working_metadata(md: Entries, insert: bool) -> Entries {
    if insert {
        zero_keys_upto(md, md.len() as int)
    } else {
        md
    }
}

/// A value as a list: an array's elements, or the value alone.
pub open spec fn as_list(v: Json) -> Seq<Json> {
    match v {
        Json::Arr(l) => l,
        _ => seq![v],
    }
}

/// Some element of `l` equals `v`.
pub open spec fn contains_eq(l: Seq<Json>, v: Json) -> bool {
    exists|i: int| 0 <= i < l.len() && json_eq(#[trigger] l[i], v)
}

/// The prepared members after the plain key `key` with value `value`.
pub open spec fn plain_step(
    prepared: Entries,
    source: Entries,
    key: Seq<char>,
    value: Json,
    append: bool,
    append_list: bool,
) -> Entries {
    if is_indexed_key_spec(key) {
        prepared
    } else if append_list && model_get(source, key) is Some {
        let list = as_list(model_get(source, key)->0);
        let list2 = if contains_eq(list, value) {
            list
        } else {
            list.push(value)
        };
        model_insert(prepared, key, Json::Arr(list2))
    } else {
        match model_get(source, key) {
            Some(Json::Str(existing)) if append => model_insert(
                prepared,
                key,
                Json::Str(existing + " "@ + json_text(value)),
            ),
            _ => model_insert(prepared, key, value),
        }
    }
}

/// The prepared members after the first `n` members of `md`.
pub open spec fn plain_upto(
    md: Entries,
    source: Entries,
    n: int,
    append: bool,
    append_list: bool,
) -> Entries
    decreases n,
{
    if n <= 0 || n > md.len() {
        Seq::empty()
    } else {
        plain_step(
            plain_upto(md, source, n - 1, append, append_list),
            source,
            md[n - 1].0,
            md[n - 1].1,
            append,
            append_list,
        )
    }
}

/// `l` grown with nulls to at least `n` elements.
pub open spec fn pad_nulls(l: Seq<Json>, n: int) -> Seq<Json> {
    if n > l.len() {
        l + Seq::new((n - l.len()) as nat, |i: int| Json::Null)
    } else {
        l
    }
}

/// Position of the first element of `l` equal to `v`.
pub open spec fn first_eq_from(l: Seq<Json>, v: Json, i: int) -> Option<int>
    decreases l.len() - i,
{
    if i < 0 || i >= l.len() {
        None
    } else if json_eq(l[i], v) {
        Some(i)
    } else {
        first_eq_from(l, v, i + 1)
    }
}

/// Removal requests: for each base key, the indexes marked for removal.
pub type Removals = Seq<(Seq<char>, Seq<usize>)>;

/// The state while indexed keys are applied: the prepared members and the
/// removal requests; `None` once a step has panicked.
pub type IndexedState = Option<(Entries, Removals)>;

/// The list an indexed key starts from for `base`: the prepared array when
/// there is one (a prepared non-array panics), else the source's value as a
/// list, grown with nulls to the number of working keys.
pub open spec fn start_list(prepared: Entries, source: Entries, base: Seq<char>, md_len: int) -> Option<Seq<Json>> {
    match model_get(prepared, base) {
        Some(Json::Arr(l)) => Some(l),
        Some(_) => None,
        None => {
            let source_list = match model_get(source, base) {
                Some(v) => as_list(v),
                None => Seq::empty(),
            };
            Some(pad_nulls(source_list, md_len))
        },
    }
}

/// The state after the indexed key `key` with value `value`.
pub open spec fn indexed_step(
    st: IndexedState,
    source: Entries,
    md_len: int,
    key: Seq<char>,
    value: Json,
    insert: bool,
) -> IndexedState {
    match st {
        None => None,
        Some((prepared, removes)) => if !is_indexed_key_spec(key) {
            st
        } else if key_index_panics(key) {
            None
        } else {
            let base = base_key_spec(key);
            match key_index_value(key) {
                None => st,
                Some(idx) => if idx == usize::MAX {
                    // the list would need more elements than a `usize` counts
                    None
                } else {
                    match start_list(prepared, source, base, md_len) {
                    None => None,
                    Some(l0) => {
                        let l1 = pad_nulls(l0, idx + 1);
                        if value == Json::Str("REMOVE_TAG"@) {
                            let prior = match model_get(removes, base) {
                                Some(s) => s,
                                None => Seq::empty(),
                            };
                            Some(
                                (
                                    model_insert(prepared, base, Json::Arr(l1.update(idx as int, Json::Null))),
                                    model_insert(removes, base, prior.push(idx)),
                                ),
                            )
                        } else if insert {
                            let l2 = match first_eq_from(l1, value, 0) {
                                Some(p) => l1.remove(p),
                                None => l1,
                            };
                            Some(
                                (
                                    model_insert(prepared, base, Json::Arr(l2.insert(idx as int, value))),
                                    removes,
                                ),
                            )
                        } else {
                            Some(
                                (
                                    model_insert(prepared, base, Json::Arr(l1.update(idx as int, value))),
                                    removes,
                                ),
                            )
                        }
                    },
                }},
            }
        },
    }
}

/// The state after the first `n` members of the working metadata.
pub open spec fn indexed_upto(
    start: Entries,
    md: Entries,
    source: Entries,
    n: int,
    insert: bool,
) -> IndexedState
    decreases n,
{
    if n <= 0 || n > md.len() {
        Some((start, Seq::empty()))
    } else {
        indexed_step(
            indexed_upto(start, md, source, n - 1, insert),
            source,
            md.len() as int,
            md[n - 1].0,
            md[n - 1].1,
            insert,
        )
    }
}

/// `x` put into a list sorted from largest to smallest, after the elements
/// not smaller than it.
pub open spec fn insert_descending(s: Seq<usize>, x: usize) -> Seq<usize>
    decreases s.len(),
{
    if s.len() == 0 {
        seq![x]
    } else if s[0] < x {
        seq![x] + s
    } else {
        seq![s[0]] + insert_descending(s.drop_first(), x)
    }
}

/// The indexes sorted from largest to smallest.
pub open spec fn sorted_descending(s: Seq<usize>) -> Seq<usize>
    decreases s.len(),
{
    if s.len() == 0 {
        Seq::empty()
    } else {
        insert_descending(sorted_descending(s.drop_last()), s.last())
    }
}

/// Remove, one after the other, the elements at the given indexes that are
/// in range at their turn.
pub open spec fn remove_indexes(l: Seq<Json>, idxs: Seq<usize>) -> Seq<Json>
    decreases idxs.len(),
{
    if idxs.len() == 0 {
        l
    } else {
        let l2 = if (idxs[0] as int) < l.len() {
            l.remove(idxs[0] as int)
        } else {
            l
        };
        remove_indexes(l2, idxs.drop_first())
    }
}

/// The elements that are not null.
pub open spec fn without_nulls(l: Seq<Json>) -> Seq<Json>
    decreases l.len(),
{
    if l.len() == 0 {
        Seq::empty()
    } else if l.last() is Null {
        without_nulls(l.drop_last())
    } else {
        without_nulls(l.drop_last()).push(l.last())
    }
}

/// The prepared members after applying the first `n` removal requests.
pub open spec fn removals_upto(prepared: Entries, removes: Removals, n: int) -> Entries
    decreases n,
{
    if n <= 0 || n > removes.len() {
        prepared
    } else {
        let acc = removals_upto(prepared, removes, n - 1);
        let base = removes[n - 1].0;
        match model_get(acc, base) {
            Some(Json::Arr(l)) => model_insert(
                acc,
                base,
                Json::Arr(without_nulls(remove_indexes(l, sorted_descending(removes[n - 1].1)))),
            ),
            _ => acc,
        }
    }
}

/// The members whose value is not null.
pub open spec fn entries_without_nulls(es: Entries) -> Entries
    decreases es.len(),
{
    if es.len() == 0 {
        Seq::empty()
    } else if es.last().1 is Null {
        entries_without_nulls(es.drop_last())
    } else {
        entries_without_nulls(es.drop_last()).push(es.last())
    }
}

/// What `prepare_metadata` returns for metadata `md` and source metadata
/// `source` (empty when there is none); `None` when it panics.
pub open spec fn prepare_metadata_spec(
    md: Entries,
    source: Entries,
    append: bool,
    append_list: bool,
    insert: bool,
) -> Option<Entries> {
    let work = working_metadata(md, insert);
    let plain = plain_upto(work, source, work.len() as int, append, append_list);
    match indexed_upto(plain, work, source, work.len() as int, insert) {
        None => None,
        Some((prepared, removes)) => Some(
            entries_without_nulls(removals_upto(prepared, removes, removes.len() as int)),
        ),
    }
}

} // verus!

verus! {

/// The removal requests of a map of index lists.
pub open spec fn removals_view(m: StrMap<Vec<usize>>) -> Removals {
    m.entries@.map_values(|e: (String, Vec<usize>)| (e.0@, e.1@))
}

proof fn lemma_removals_insert(es: Seq<(String, Vec<usize>)>, k: String, v: Vec<usize>)
    ensures
        es.map_values(|e: (String, Vec<usize>)| (e.0@, e.1@)).len() == es.len(),
        entries_insert(es, k, v).map_values(|e: (String, Vec<usize>)| (e.0@, e.1@)) == model_insert(
            es.map_values(|e: (String, Vec<usize>)| (e.0@, e.1@)),
            k@,
            v@,
        ),
        model_keys(es.map_values(|e: (String, Vec<usize>)| (e.0@, e.1@))) == entry_keys(es),
{
    let ve = es.map_values(|e: (String, Vec<usize>)| (e.0@, e.1@));
    assert(model_keys(ve) =~= entry_keys(es));
    lemma_key_index(entry_keys(es), k@);
    match key_index(entry_keys(es), k@) {
        Some(i) => {
            assert(entries_insert(es, k, v).map_values(|e: (String, Vec<usize>)| (e.0@, e.1@))
                =~= ve.update(i, (k@, v@)));
        },
        None => {
            lemma_insert_index_from(entry_keys(es), k@, 0);
            let p = insert_index(entry_keys(es), k@);
            assert(entries_insert(es, k, v).map_values(|e: (String, Vec<usize>)| (e.0@, e.1@))
                =~= ve.insert(p, (k@, v@)));
        },
    }
}

fn insert_json_member(m: &mut StrMap<JsonValue>, key: String, v: JsonValue)
    ensures
        obj_view(*final(m)) == model_insert(obj_view(*old(m)), key@, v@),
{
    proof {
        lemma_entries_view_insert(m.entries@, key, v);
    }
    m.insert(key, v);
}

/// A deep copy of a list of values.
fn duplicate_vec(a: &Vec<JsonValue>) -> (r: Vec<JsonValue>)
    ensures
        json_seq_view(r@) == json_seq_view(a@),
{
    let mut out: Vec<JsonValue> = Vec::new();
    let mut i: usize = 0;
    while i < a.len()
        invariant
            i <= a@.len(),
            json_seq_view(out@) == json_seq_view(a@.take(i as int)),
        decreases a@.len() - i,
    {
        let item = a[i].duplicate();
        proof {
            lemma_seq_view_push(out@, item);
            lemma_seq_view_push(a@.take(i as int), a@[i as int]);
            assert(a@.take(i as int).push(a@[i as int]) =~= a@.take(i + 1));
        }
        out.push(item);
        i = i + 1;
    }
    assert(a@.take(i as int) =~= a@);
    out
}

fn concat_key(k: &str, suffix: &str) -> (r: String)
    ensures
        r@ == k@ + suffix@,
{
    let mut s = to_string(k);
    push_str(&mut s, suffix);
    s
}

fn add_zero_index_keys(md: &StrMap<JsonValue>) -> (r: StrMap<JsonValue>)
    ensures
        obj_view(r) == zero_keys_upto(obj_view(*md), obj_view(*md).len() as int),
{
    proof {
        lemma_entries_view(md.entries@);
    }
    let ghost orig = obj_view(*md);
    let mut out = duplicate_map(md);
    let mut i: usize = 0;
    while i < md.entries.len()
        invariant
            i <= md.entries@.len(),
            orig == obj_view(*md),
            orig.len() == md.entries@.len(),
            forall|j: int| 0 <= j < md.entries@.len() ==> #[trigger] orig[j] == (md.entries@[j].0@, json_view(md.entries@[j].1)),
            obj_view(out) == zero_keys_upto(orig, i as int),
        decreases md.entries@.len() - i,
    {
        let key = md.entries[i].0.as_str();
        if !is_indexed_key(key) {
            let k = concat_key(key, "[0]");
            let v = md.entries[i].1.duplicate();
            insert_json_member(&mut out, k, v);
        }
        i = i + 1;
    }
    out
}

/// Whether some element of `l` equals `v`.
fn contains_json(l: &Vec<JsonValue>, v: &JsonValue) -> (r: bool)
    ensures
        r == contains_eq(json_seq_view(l@), v@),
{
    proof {
        lemma_seq_view(l@);
    }
    let mut i: usize = 0;
    while i < l.len()
        invariant
            i <= l@.len(),
            json_seq_view(l@).len() == l@.len(),
            forall|j: int| 0 <= j < l@.len() ==> #[trigger] json_seq_view(l@)[j] == l@[j]@,
            forall|j: int| 0 <= j < i ==> !json_eq(#[trigger] json_seq_view(l@)[j], v@),
        decreases l@.len() - i,
    {
        if json_equal(&l[i], v) {
            assert(json_eq(json_seq_view(l@)[i as int], v@));
            return true;
        }
        i = i + 1;
    }
    false
}

/// Position of the first element of `l` equal to `v`.
fn first_equal(l: &Vec<JsonValue>, v: &JsonValue) -> (r: Option<usize>)
    ensures
        r matches Some(p) ==> first_eq_from(json_seq_view(l@), v@, 0) == Some(p as int),
        r is None ==> first_eq_from(json_seq_view(l@), v@, 0) is None,
{
    proof {
        lemma_seq_view(l@);
    }
    let mut i: usize = 0;
    while i < l.len()
        invariant
            i <= l@.len(),
            json_seq_view(l@).len() == l@.len(),
            forall|j: int| 0 <= j < l@.len() ==> #[trigger] json_seq_view(l@)[j] == l@[j]@,
            first_eq_from(json_seq_view(l@), v@, 0) == first_eq_from(json_seq_view(l@), v@, i as int),
        decreases l@.len() - i,
    {
        if json_equal(&l[i], v) {
            return Some(i);
        }
        i = i + 1;
    }
    None
}

fn plain_members(
    work: &StrMap<JsonValue>,
    source: &StrMap<JsonValue>,
    append: bool,
    append_list: bool,
) -> (r: StrMap<JsonValue>)
    ensures
        obj_view(r) == plain_upto(obj_view(*work), obj_view(*source), obj_view(*work).len() as int, append, append_list),
{
    proof {
        lemma_entries_view(work.entries@);
    }
    let ghost w = obj_view(*work);
    let ghost src = obj_view(*source);
    let mut prepared: StrMap<JsonValue> = StrMap::new();
    assert(obj_view(prepared) =~= Seq::<(Seq<char>, Json)>::empty());
    let mut i: usize = 0;
    while i < work.entries.len()
        invariant
            i <= work.entries@.len(),
            w == obj_view(*work),
            src == obj_view(*source),
            w.len() == work.entries@.len(),
            forall|j: int| 0 <= j < work.entries@.len() ==> #[trigger] w[j] == (work.entries@[j].0@, json_view(work.entries@[j].1)),
            obj_view(prepared) == plain_upto(w, src, i as int, append, append_list),
        decreases work.entries@.len() - i,
    {
        let key = work.entries[i].0.as_str();
        let value = &work.entries[i].1;
        assert(w[i as int] == (key@, value@));
        if !is_indexed_key(key) {
            let existing = model_get_json(source, key);
            if append_list && existing.is_some() {
                let ex = existing.unwrap();
                let mut list = match ex.as_array() {
                    Some(a) => duplicate_vec(a),
                    None => {
                        let single = vec![ex.duplicate()];
                        proof {
                            lemma_seq_view_push(Seq::<JsonValue>::empty(), single@[0]);
                            assert(single@ =~= Seq::<JsonValue>::empty().push(single@[0]));
                        }
                        single
                    },
                };
                assert(json_seq_view(list@) == as_list(ex@));
                if !contains_json(&list, value) {
                    let d = value.duplicate();
                    proof {
                        lemma_seq_view_push(list@, d);
                    }
                    list.push(d);
                }
                insert_json_member(&mut prepared, to_string(key), JsonValue::Array(list));
            } else {
                let mut done = false;
                if append {
                    match existing {
                        Some(ex) => match ex.as_str() {
                            Some(es) => {
                                let mut text = to_string(es);
                                push_char(&mut text, ' ');
                                let vt = json_to_text(value);
                                push_str(&mut text, vt.as_str());
                                proof {
                                    reveal_strlit(" ");
                                    assert(text@ =~= es@ + " "@ + json_text(value@));
                                }
                                insert_json_member(&mut prepared, to_string(key), JsonValue::String(text));
                                done = true;
                            },
                            None => {},
                        },
                        None => {},
                    }
                }
                if !done {
                    insert_json_member(&mut prepared, to_string(key), value.duplicate());
                }
            }
        }
        i = i + 1;
    }
    prepared
}

} // verus!

verus! {

proof fn lemma_indexed_none(start: Entries, md: Entries, source: Entries, i: int, n: int, insert: bool)
    requires
        0 <= i <= n <= md.len(),
        indexed_upto(start, md, source, i, insert) is None,
    ensures
        indexed_upto(start, md, source, n, insert) is None,
    decreases n - i,
{
    if i < n {
        lemma_indexed_none(start, md, source, i + 1, n, insert);
    }
}

fn index_slice_panics(key: &str) -> (r: bool)
    ensures
        r == key_index_panics(key@),
{
    match (find_char_index(key, '['), find_char_index(key, ']')) {
        (Some(a), Some(b)) => b < a,
        _ => false,
    }
}

proof fn lemma_first_eq_from(l: Seq<Json>, v: Json, i: int)
    requires
        0 <= i <= l.len(),
    ensures
        first_eq_from(l, v, i) matches Some(p) ==> i <= p < l.len(),
    decreases l.len() - i,
{
    if i < l.len() {
        lemma_first_eq_from(l, v, i + 1);
    }
}

fn pad_with_nulls(l: &mut Vec<JsonValue>, n: usize)
    ensures
        json_seq_view(final(l)@) == pad_nulls(json_seq_view(old(l)@), n as int),
        final(l)@.len() == if n > old(l)@.len() { n as int } else { old(l)@.len() as int },
{
    proof {
        lemma_seq_view(l@);
    }
    let ghost l0 = json_seq_view(l@);
    while l.len() < n
        invariant
            l0.len() <= l@.len(),
            l@.len() <= if n > l0.len() { n as int } else { l0.len() as int },
            json_seq_view(l@) == l0 + Seq::new((l@.len() - l0.len()) as nat, |i: int| Json::Null),
        decreases n - l@.len(),
    {
        let ghost prev = l@;
        l.push(JsonValue::Null);
        proof {
            lemma_seq_view_push(prev, JsonValue::Null);
            assert(json_seq_view(l@) =~= l0 + Seq::new((l@.len() - l0.len()) as nat, |i: int| Json::Null));
        }
    }
    proof {
        if n <= l0.len() {
            assert(json_seq_view(l@) =~= l0);
        }
    }
}

/// The list an indexed key starts from (see `start_list`), when it exists.
fn starting_list(
    prepared: &StrMap<JsonValue>,
    source: &StrMap<JsonValue>,
    base: &str,
    md_len: usize,
) -> (r: Option<Vec<JsonValue>>)
    ensures
        match start_list(obj_view(*prepared), obj_view(*source), base@, md_len as int) {
            Some(l) => r matches Some(v) && json_seq_view(v@) == l,
            None => r is None,
        },
{
    match model_get_json(prepared, base) {
        Some(v) => match v.as_array() {
            Some(a) => Some(duplicate_vec(a)),
            None => None,
        },
        None => {
            let mut list = match model_get_json(source, base) {
                Some(v) => match v.as_array() {
                    Some(a) => duplicate_vec(a),
                    None => {
                        let single = vec![v.duplicate()];
                        proof {
                            lemma_seq_view_push(Seq::<JsonValue>::empty(), single@[0]);
                            assert(single@ =~= Seq::<JsonValue>::empty().push(single@[0]));
                        }
                        single
                    },
                },
                None => {
                    let e: Vec<JsonValue> = Vec::new();
                    assert(json_seq_view(e@) =~= Seq::<Json>::empty());
                    e
                },
            };
            pad_with_nulls(&mut list, md_len);
            Some(list)
        },
    }
}

fn is_remove_tag(v: &JsonValue) -> (r: bool)
    ensures
        r == (v@ == Json::Str("REMOVE_TAG"@)),
{
    match v {
        JsonValue::String(s) => {
            let r = str_equal(s.as_str(), "REMOVE_TAG");
            r
        },
        _ => false,
    }
}

fn indexed_members(
    plain: StrMap<JsonValue>,
    work: &StrMap<JsonValue>,
    source: &StrMap<JsonValue>,
    insert: bool,
) -> (r: Option<(StrMap<JsonValue>, StrMap<Vec<usize>>)>)
    ensures
        match r {
            Some((p, rm)) => indexed_upto(obj_view(plain), obj_view(*work), obj_view(*source), obj_view(*work).len() as int, insert)
                == Some((obj_view(p), removals_view(rm))),
            None => indexed_upto(obj_view(plain), obj_view(*work), obj_view(*source), obj_view(*work).len() as int, insert) is None,
        },
{
    proof {
        lemma_entries_view(work.entries@);
    }
    let ghost w = obj_view(*work);
    let ghost src = obj_view(*source);
    let ghost start = obj_view(plain);
    let md_len = work.entries.len();
    let mut prepared = plain;
    let mut removes: StrMap<Vec<usize>> = StrMap::new();
    assert(removals_view(removes) =~= Seq::<(Seq<char>, Seq<usize>)>::empty());
    let mut i: usize = 0;
    while i < work.entries.len()
        invariant
            i <= work.entries@.len(),
            md_len == work.entries@.len(),
            w == obj_view(*work),
            src == obj_view(*source),
            w.len() == work.entries@.len(),
            forall|j: int| 0 <= j < work.entries@.len() ==> #[trigger] w[j] == (work.entries@[j].0@, json_view(work.entries@[j].1)),
            indexed_upto(start, w, src, i as int, insert) == Some((obj_view(prepared), removals_view(removes))),
            start == obj_view(plain),
        decreases work.entries@.len() - i,
    {
        let key = work.entries[i].0.as_str();
        let value = &work.entries[i].1;
        assert(w[i as int] == (key@, value@));
        if is_indexed_key(key) {
            if index_slice_panics(key) {
                proof {
                    lemma_indexed_none(start, w, src, i + 1, w.len() as int, insert);
                }
                return None;
            }
            let base = get_base_key(key);
            match get_index(key) {
                None => {},
                Some(idx) => {
                    if idx == usize::MAX {
                        proof {
                            lemma_indexed_none(start, w, src, i + 1, w.len() as int, insert);
                        }
                        return None;
                    }
                    match starting_list(&prepared, source, base.as_str(), md_len) {
                        None => {
                            proof {
                                lemma_indexed_none(start, w, src, i + 1, w.len() as int, insert);
                            }
                            return None;
                        },
                        Some(mut list) => {
                            pad_with_nulls(&mut list, idx + 1);
                            let ghost l1 = json_seq_view(list@);
                            proof {
                                lemma_seq_view(list@);
                            }
                            let ghost st = indexed_upto(start, w, src, i as int, insert);
                            let ghost prep0 = obj_view(prepared);
                            let ghost rem0 = removals_view(removes);
                            if is_remove_tag(value) {
                                let mut prior: Vec<usize> = match removes.get(base.as_str()) {
                                    Some(p) => p.clone(),
                                    None => Vec::new(),
                                };
                                proof {
                                    lemma_removals_insert(removes.entries@, base, prior);
                                    lemma_key_index(removes.keys(), base@);
                                    assert(prior@ == match model_get(rem0, base@) {
                                        Some(s) => s,
                                        None => Seq::<usize>::empty(),
                                    });
                                }
                                prior.push(idx);
                                list.set(idx, JsonValue::Null);
                                proof {
                                    lemma_seq_view(list@);
                                    assert(json_seq_view(list@) =~= l1.update(idx as int, Json::Null));
                                }
                                insert_json_member(&mut prepared, base.clone(), JsonValue::Array(list));
                                proof {
                                    lemma_removals_insert(removes.entries@, base, prior);
                                }
                                removes.insert(base, prior);
                            } else if insert {
                                let ghost l2 = match first_eq_from(l1, value@, 0) {
                                    Some(p) => l1.remove(p),
                                    None => l1,
                                };
                                match first_equal(&list, value) {
                                    Some(p) => {
                                        proof {
                                            lemma_first_eq_from(l1, value@, 0);
                                        }
                                        list.remove(p);
                                    },
                                    None => {},
                                }
                                proof {
                                    lemma_seq_view(list@);
                                    assert(json_seq_view(list@) =~= l2);
                                }
                                let d = value.duplicate();
                                list.insert(idx, d);
                                proof {
                                    lemma_seq_view(list@);
                                    assert(json_seq_view(list@) =~= l2.insert(idx as int, value@));
                                }
                                insert_json_member(&mut prepared, base, JsonValue::Array(list));
                            } else {
                                list.set(idx, value.duplicate());
                                proof {
                                    lemma_seq_view(list@);
                                    assert(json_seq_view(list@) =~= l1.update(idx as int, value@));
                                }
                                insert_json_member(&mut prepared, base, JsonValue::Array(list));
                            }
                        },
                    }
                },
            }
        }
        i = i + 1;
    }
    Some((prepared, removes))
}

} // verus!

verus! {

proof fn lemma_insert_descending_at(s: Seq<usize>, x: usize, p: int)
    requires
        0 <= p <= s.len(),
        forall|j: int| 0 <= j < p ==> !(s[j] < x),
        p < s.len() ==> s[p] < x,
    ensures
        insert_descending(s, x) == s.insert(p, x),
    decreases s.len(),
{
    if s.len() == 0 {
        assert(s.insert(p, x) =~= seq![x]);
    } else if s[0] < x {
        assert(s.insert(p, x) =~= seq![x] + s);
    } else {
        lemma_insert_descending_at(s.drop_first(), x, p - 1);
        assert(s.insert(p, x) =~= seq![s[0]] + s.drop_first().insert(p - 1, x));
    }
}

fn sort_descending(idxs: &Vec<usize>) -> (r: Vec<usize>)
    ensures
        r@ == sorted_descending(idxs@),
{
    let mut out: Vec<usize> = Vec::new();
    let mut i: usize = 0;
    while i < idxs.len()
        invariant
            i <= idxs@.len(),
            out@ == sorted_descending(idxs@.take(i as int)),
        decreases idxs@.len() - i,
    {
        let x = idxs[i];
        let mut p: usize = 0;
        while p < out.len() && !(out[p] < x)
            invariant
                p <= out@.len(),
                forall|j: int| 0 <= j < p ==> !(out@[j] < x),
            decreases out@.len() - p,
        {
            p = p + 1;
        }
        proof {
            lemma_insert_descending_at(out@, x, p as int);
            assert(idxs@.take(i + 1).drop_last() =~= idxs@.take(i as int));
        }
        out.insert(p, x);
        i = i + 1;
    }
    assert(idxs@.take(i as int) =~= idxs@);
    out
}

fn remove_marked(list: &mut Vec<JsonValue>, sorted: &Vec<usize>)
    ensures
        json_seq_view(final(list)@) == remove_indexes(json_seq_view(old(list)@), sorted@),
{
    let ghost l0 = json_seq_view(list@);
    assert(sorted@.skip(0) =~= sorted@);
    let mut j: usize = 0;
    while j < sorted.len()
        invariant
            j <= sorted@.len(),
            remove_indexes(l0, sorted@) == remove_indexes(json_seq_view(list@), sorted@.skip(j as int)),
        decreases sorted@.len() - j,
    {
        let idx = sorted[j];
        let ghost before = json_seq_view(list@);
        proof {
            lemma_seq_view(list@);
            assert(sorted@.skip(j as int).drop_first() =~= sorted@.skip(j + 1));
        }
        if idx < list.len() {
            list.remove(idx);
            proof {
                lemma_seq_view(list@);
                assert(json_seq_view(list@) =~= before.remove(idx as int));
            }
        }
        j = j + 1;
    }
    assert(sorted@.skip(j as int) =~= Seq::<usize>::empty());
}

fn drop_nulls(list: &Vec<JsonValue>) -> (r: Vec<JsonValue>)
    ensures
        json_seq_view(r@) == without_nulls(json_seq_view(list@)),
{
    proof {
        lemma_seq_view(list@);
    }
    let mut out: Vec<JsonValue> = Vec::new();
    let mut i: usize = 0;
    while i < list.len()
        invariant
            i <= list@.len(),
            json_seq_view(list@).len() == list@.len(),
            forall|j: int| 0 <= j < list@.len() ==> #[trigger] json_seq_view(list@)[j] == list@[j]@,
            json_seq_view(out@) == without_nulls(json_seq_view(list@).take(i as int)),
        decreases list@.len() - i,
    {
        proof {
            assert(json_seq_view(list@).take(i + 1).drop_last() =~= json_seq_view(list@).take(i as int));
        }
        if !list[i].is_null() {
            let d = list[i].duplicate();
            proof {
                lemma_seq_view_push(out@, d);
            }
            out.push(d);
        }
        i = i + 1;
    }
    assert(json_seq_view(list@).take(i as int) =~= json_seq_view(list@));
    out
}

fn apply_removals(prepared: &mut StrMap<JsonValue>, removes: &StrMap<Vec<usize>>)
    ensures
        obj_view(*final(prepared)) == removals_upto(
            obj_view(*old(prepared)),
            removals_view(*removes),
            removals_view(*removes).len() as int,
        ),
{
    let ghost p0 = obj_view(*prepared);
    let ghost rv = removals_view(*removes);
    let mut i: usize = 0;
    while i < removes.entries.len()
        invariant
            i <= removes.entries@.len(),
            rv == removals_view(*removes),
            rv.len() == removes.entries@.len(),
            obj_view(*prepared) == removals_upto(p0, rv, i as int),
        decreases removes.entries@.len() - i,
    {
        let base = removes.entries[i].0.as_str();
        let idxs = &removes.entries[i].1;
        assert(rv[i as int] == (base@, idxs@));
        let current = match model_get_json(prepared, base) {
            Some(v) => match v.as_array() {
                Some(a) => Some(duplicate_vec(a)),
                None => None,
            },
            None => None,
        };
        match current {
            Some(mut list) => {
                let sorted = sort_descending(idxs);
                remove_marked(&mut list, &sorted);
                let kept = drop_nulls(&list);
                insert_json_member(prepared, to_string(base), JsonValue::Array(kept));
            },
            None => {},
        }
        i = i + 1;
    }
}

fn drop_null_members(m: &StrMap<JsonValue>) -> (r: StrMap<JsonValue>)
    ensures
        obj_view(r) == entries_without_nulls(obj_view(*m)),
{
    proof {
        lemma_entries_view(m.entries@);
    }
    let ghost mv = obj_view(*m);
    let mut out: Vec<(String, JsonValue)> = Vec::new();
    let mut i: usize = 0;
    while i < m.entries.len()
        invariant
            i <= m.entries@.len(),
            mv == obj_view(*m),
            mv.len() == m.entries@.len(),
            forall|j: int| 0 <= j < m.entries@.len() ==> #[trigger] mv[j] == (m.entries@[j].0@, json_view(m.entries@[j].1)),
            crate::json::json_entries_view(out@) == entries_without_nulls(mv.take(i as int)),
        decreases m.entries@.len() - i,
    {
        proof {
            assert(mv.take(i + 1).drop_last() =~= mv.take(i as int));
        }
        if !m.entries[i].1.is_null() {
            let item = (m.entries[i].0.clone(), m.entries[i].1.duplicate());
            assert(out@.push(item).drop_last() =~= out@);
            out.push(item);
        }
        i = i + 1;
    }
    assert(mv.take(i as int) =~= mv);
    StrMap { entries: out }
}

/// The members of `source`, empty when there is none.
pub open spec fn source_entries(source: Option<&StrMap<JsonValue>>) -> Entries {
    match source {
        Some(m) => obj_view(*m),
        None => Seq::empty(),
    }
}

/// Normalize and merge metadata, or `None` where `prepare_metadata` would
/// panic: an indexed key whose first `]` comes before its first `[`, an
/// index of `usize::MAX`, or an indexed key whose base already holds a
/// prepared value that is not an array.
pub fn try_prepare_metadata(
    metadata: &StrMap<JsonValue>,
    source_metadata: Option<&StrMap<JsonValue>>,
    append: bool,
    append_list: bool,
    insert: bool,
) -> (r: Option<StrMap<JsonValue>>)
    ensures
        match r {
            Some(m) => Some(obj_view(m)) == prepare_metadata_spec(
                obj_view(*metadata),
                source_entries(source_metadata),
                append,
                append_list,
                insert,
            ),
            None => prepare_metadata_spec(
                obj_view(*metadata),
                source_entries(source_metadata),
                append,
                append_list,
                insert,
            ) is None,
        },
        r matches Some(m) ==> keys_sorted(m.keys()),
{
    let empty: StrMap<JsonValue> = StrMap::new();
    let source = match source_metadata {
        Some(s) => s,
        None => &empty,
    };
    assert(obj_view(*source) =~= source_entries(source_metadata));
    let work = if insert {
        add_zero_index_keys(metadata)
    } else {
        duplicate_map(metadata)
    };
    let plain = plain_members(&work, source, append, append_list);
    match indexed_members(plain, &work, source, insert) {
        None => None,
        Some((mut prepared, removes)) => {
            apply_removals(&mut prepared, &removes);
            let result = drop_null_members(&prepared);
            proof {
                law_prepared_metadata_sorted(
                    obj_view(*metadata),
                    source_entries(source_metadata),
                    append,
                    append_list,
                    insert,
                );
                lemma_entries_view(result.entries@);
            }
            Some(result)
        },
    }
}

proof fn lemma_entries_without_nulls(es: Entries)
    ensures
        forall|i: int|
            0 <= i < entries_without_nulls(es).len() ==> !((#[trigger] entries_without_nulls(es)[i]).1 is Null),
    decreases es.len(),
{
    if es.len() > 0 {
        lemma_entries_without_nulls(es.drop_last());
    }
}

proof fn lemma_plain_sorted(md: Entries, source: Entries, n: int, append: bool, append_list: bool)
    ensures
        keys_sorted(model_keys(plain_upto(md, source, n, append, append_list))),
    decreases n,
{
    if n <= 0 || n > md.len() {
        assert(model_keys(Seq::<(Seq<char>, Json)>::empty()) =~= Seq::<Seq<char>>::empty());
    } else {
        lemma_plain_sorted(md, source, n - 1, append, append_list);
        let acc = plain_upto(md, source, n - 1, append, append_list);
        let key = md[n - 1].0;
        let value = md[n - 1].1;
        if !is_indexed_key_spec(key) {
            if append_list && model_get(source, key) is Some {
                let list = as_list(model_get(source, key)->0);
                let list2 = if contains_eq(list, value) { list } else { list.push(value) };
                law_insert_keeps_keys_sorted(acc, key, Json::Arr(list2));
            } else {
                match model_get(source, key) {
                    Some(Json::Str(existing)) if append => {
                        law_insert_keeps_keys_sorted(acc, key, Json::Str(existing + " "@ + json_text(value)));
                    },
                    _ => {
                        law_insert_keeps_keys_sorted(acc, key, value);
                    },
                }
            }
        }
    }
}

proof fn lemma_indexed_sorted(start: Entries, md: Entries, source: Entries, n: int, insert: bool)
    requires
        keys_sorted(model_keys(start)),
    ensures
        indexed_upto(start, md, source, n, insert) matches Some((p, _)) ==> keys_sorted(model_keys(p)),
    decreases n,
{
    if n > 0 && n <= md.len() {
        lemma_indexed_sorted(start, md, source, n - 1, insert);
        let st = indexed_upto(start, md, source, n - 1, insert);
        let key = md[n - 1].0;
        let value = md[n - 1].1;
        if let Some((prepared, removes)) = st {
            if is_indexed_key_spec(key) && !key_index_panics(key) {
                let base = base_key_spec(key);
                if let Some(idx) = key_index_value(key) {
                    if idx != usize::MAX {
                        if let Some(l0) = start_list(prepared, source, base, md.len() as int) {
                            let l1 = pad_nulls(l0, idx + 1);
                            if value == Json::Str("REMOVE_TAG"@) {
                                law_insert_keeps_keys_sorted(prepared, base, Json::Arr(l1.update(idx as int, Json::Null)));
                            } else if insert {
                                let l2 = match first_eq_from(l1, value, 0) {
                                    Some(p) => l1.remove(p),
                                    None => l1,
                                };
                                law_insert_keeps_keys_sorted(prepared, base, Json::Arr(l2.insert(idx as int, value)));
                            } else {
                                law_insert_keeps_keys_sorted(prepared, base, Json::Arr(l1.update(idx as int, value)));
                            }
                        }
                    }
                }
            }
        }
    }
}

proof fn lemma_removals_sorted(prepared: Entries, removes: Removals, n: int)
    requires
        keys_sorted(model_keys(prepared)),
    ensures
        keys_sorted(model_keys(removals_upto(prepared, removes, n))),
    decreases n,
{
    if n > 0 && n <= removes.len() {
        lemma_removals_sorted(prepared, removes, n - 1);
        let acc = removals_upto(prepared, removes, n - 1);
        let base = removes[n - 1].0;
        if let Some(Json::Arr(l)) = model_get(acc, base) {
            law_insert_keeps_keys_sorted(
                acc,
                base,
                Json::Arr(without_nulls(remove_indexes(l, sorted_descending(removes[n - 1].1)))),
            );
        }
    }
}

proof fn lemma_without_nulls_sorted(es: Entries)
    requires
        keys_sorted(model_keys(es)),
    ensures
        keys_sorted(model_keys(entries_without_nulls(es))),
        es.len() > 0 ==> forall|i: int|
            0 <= i < entries_without_nulls(es).len() ==> #[trigger] entries_without_nulls(es)[i].0
                == es.last().0 || crate::strings::seq_lt(entries_without_nulls(es)[i].0, es.last().0),
    decreases es.len(),
{
    if es.len() > 0 {
        let init = es.drop_last();
        let ik = model_keys(init);
        let k = model_keys(es);
        assert(k =~= ik.push(es.last().0));
        assert forall|i: int, j: int| 0 <= i < j < ik.len() implies crate::strings::seq_lt(
            #[trigger] ik[i],
            #[trigger] ik[j],
        ) by {
            assert(ik[i] == k[i] && ik[j] == k[j]);
        }
        lemma_without_nulls_sorted(init);
        let r0 = entries_without_nulls(init);
        if init.len() > 0 {
            assert(crate::strings::seq_lt(k[init.len() - 1], k[es.len() - 1]));
            assert forall|i: int| 0 <= i < r0.len() implies crate::strings::seq_lt(#[trigger] r0[i].0, es.last().0) by {
                crate::strings::lemma_seq_lt_order(r0[i].0, init.last().0, es.last().0);
            }
        } else {
            assert(r0 =~= Seq::<(Seq<char>, Json)>::empty());
        }
        let r = entries_without_nulls(es);
        if !(es.last().1 is Null) {
            let rk = model_keys(r);
            assert(rk =~= model_keys(r0).push(es.last().0));
            assert forall|i: int, j: int| 0 <= i < j < rk.len() implies crate::strings::seq_lt(
                #[trigger] rk[i],
                #[trigger] rk[j],
            ) by {
                if j < rk.len() - 1 {
                    assert(rk[i] == model_keys(r0)[i] && rk[j] == model_keys(r0)[j]);
                } else {
                    assert(rk[i] == r0[i].0);
                }
            }
            assert forall|i: int| 0 <= i < r.len() implies #[trigger] r[i].0 == es.last().0
                || crate::strings::seq_lt(r[i].0, es.last().0) by {
                if i < r0.len() {
                    assert(r[i] == r0[i]);
                }
            }
        }
    }
}

/// Prepared metadata has its keys in ascending order, as an object does.
pub proof fn law_prepared_metadata_sorted(
    md: Entries,
    source: Entries,
    append: bool,
    append_list: bool,
    insert: bool,
)
    requires
        prepare_metadata_spec(md, source, append, append_list, insert) is Some,
    ensures
        keys_sorted(model_keys(prepare_metadata_spec(md, source, append, append_list, insert)->0)),
{
    let work = working_metadata(md, insert);
    lemma_plain_sorted(work, source, work.len() as int, append, append_list);
    let plain = plain_upto(work, source, work.len() as int, append, append_list);
    lemma_indexed_sorted(plain, work, source, work.len() as int, insert);
    let (prepared, removes) = indexed_upto(plain, work, source, work.len() as int, insert)->0;
    lemma_removals_sorted(prepared, removes, removes.len() as int);
    lemma_without_nulls_sorted(removals_upto(prepared, removes, removes.len() as int));
}

/// Prepared metadata never holds a null value: whatever the metadata asked
/// for, null members are dropped before it is returned.
pub proof fn law_prepared_metadata_has_no_nulls(
    md: Entries,
    source: Entries,
    append: bool,
    append_list: bool,
    insert: bool,
)
    requires
        prepare_metadata_spec(md, source, append, append_list, insert) is Some,
    ensures
        forall|i: int|
            0 <= i < prepare_metadata_spec(md, source, append, append_list, insert)->0.len()
                ==> !((#[trigger] prepare_metadata_spec(md, source, append, append_list, insert)->0[i]).1 is Null),
{
    let work = working_metadata(md, insert);
    let plain = plain_upto(work, source, work.len() as int, append, append_list);
    let (prepared, removes) = indexed_upto(plain, work, source, work.len() as int, insert)->0;
    lemma_entries_without_nulls(removals_upto(prepared, removes, removes.len() as int));
}

/// Normalize and merge metadata before building a JSON patch.
///
/// Plain keys are taken as they are, appended to the source's list
/// (`append_list`) or to the source's string (`append`); `key[i]` keys
/// set, insert (`insert`) or mark for removal (`REMOVE_TAG`) element `i` of
/// the list under `key`; nulls are dropped at the end.
pub fn prepare_metadata(
    metadata: &StrMap<JsonValue>,
    source_metadata: Option<&StrMap<JsonValue>>,
    append: bool,
    append_list: bool,
    insert: bool,
) -> (r: StrMap<JsonValue>)
    requires
        prepare_metadata_spec(obj_view(*metadata), source_entries(source_metadata), append, append_list, insert) is Some,
    ensures
        Some(obj_view(r)) == prepare_metadata_spec(
            obj_view(*metadata),
            source_entries(source_metadata),
            append,
            append_list,
            insert,
        ),
        keys_sorted(r.keys()),
{
    match try_prepare_metadata(metadata, source_metadata, append, append_list, insert) {
        Some(m) => m,
        None => StrMap::new(),
    }
}

} // verus!

verus! {

/// A byte that `urlencoding::encode` leaves as it is: ASCII letters and
/// digits, `-`, `.`, `_`, `~`.
pub open spec fn is_unreserved_byte(b: u8) -> bool {
    ||| (48 <= b && b <= 57)
    ||| (65 <= b && b <= 90)
    ||| (97 <= b && b <= 122)
    ||| b == 45
    ||| b == 46
    ||| b == 95
    ||| b == 126
}

/// An upper-case hexadecimal digit.
pub open spec fn hex_digit_upper(d: u8) -> char {
    if d < 10 {
        ((48 + d) as u8) as char
    } else {
        ((65 + d - 10) as u8) as char
    }
}

/// Percent-encoding of bytes: unreserved bytes as themselves, any other
/// byte as `%` and two upper-case hexadecimal digits.
pub open spec fn percent_encode(bytes: Seq<u8>) -> Seq<char>
    decreases bytes.len(),
{
    if bytes.len() == 0 {
        Seq::empty()
    } else {
        let b = bytes[0];
        (if is_unreserved_byte(b) {
            seq![b as char]
        } else {
            seq!['%', hex_digit_upper(b / 16), hex_digit_upper(b % 16)]
        }) + percent_encode(bytes.drop_first())
    }
}

/// `urlencoding::encode`: percent-encodes every byte of the UTF-8 text
/// except ASCII letters, digits, `-`, `.`, `_` and `~`, with upper-case
/// hexadecimal digits. The contract states exactly that.
#[verifier::external_body]
fn url_encode(s: &str) -> (r: String)
    ensures
        r@ == percent_encode(vstd::utf8::encode_utf8(s@)),
{
    urlencoding::encode(s).into_owned()
}

/// `s` with every `_` written as `--`.
pub open spec fn replace_underscores(s: Seq<char>) -> Seq<char>
    decreases s.len(),
{
    if s.len() == 0 {
        Seq::empty()
    } else {
        replace_underscores(s.drop_last()) + if s.last() == '_' {
            seq!['-', '-']
        } else {
            seq![s.last()]
        }
    }
}

/// The header name for element `idx` of metadata `key`.
pub open spec fn metadata_header_key(meta_type: Seq<char>, idx: nat, key: Seq<char>) -> Seq<char> {
    replace_underscores("x-archive-"@ + meta_type + decimal2(idx) + "-"@ + key)
}

/// The header value for a metadata value: a string as it is, or
/// `uri(<percent-encoded>)` when it must be quoted; any other value as its
/// JSON text.
pub open spec fn metadata_header_value(v: Json) -> Seq<char> {
    match v {
        Json::Str(s) => if needs_quote_spec(s) {
            "uri("@ + percent_encode(vstd::utf8::encode_utf8(s)) + ")"@
        } else {
            s
        },
        _ => json_text(v),
    }
}

/// Headers after the first `n` values of one metadata key; nulls are skipped
/// but still counted.
pub open spec fn value_headers_upto(
    h: Seq<(Seq<char>, Seq<char>)>,
    meta_type: Seq<char>,
    key: Seq<char>,
    values: Seq<Json>,
    n: int,
) -> Seq<(Seq<char>, Seq<char>)>
    decreases n,
{
    if n <= 0 || n > values.len() {
        h
    } else {
        let acc = value_headers_upto(h, meta_type, key, values, n - 1);
        let v = values[n - 1];
        if v is Null {
            acc
        } else {
            model_insert(acc, metadata_header_key(meta_type, (n - 1) as nat, key), metadata_header_value(v))
        }
    }
}

/// Headers after the first `n` members of a metadata object.
pub open spec fn metadata_headers_upto(
    h: Seq<(Seq<char>, Seq<char>)>,
    md: Entries,
    meta_type: Seq<char>,
    n: int,
) -> Seq<(Seq<char>, Seq<char>)>
    decreases n,
{
    if n <= 0 || n > md.len() {
        h
    } else {
        let acc = metadata_headers_upto(h, md, meta_type, n - 1);
        let values = as_list(md[n - 1].1);
        value_headers_upto(acc, meta_type, md[n - 1].0, values, values.len() as int)
    }
}

/// The headers `prepare_metadata_headers` leaves.
pub open spec fn prepare_metadata_headers_spec(
    h: Seq<(Seq<char>, Seq<char>)>,
    metadata: Entries,
    file_metadata: Entries,
    queue_derive: bool,
) -> Seq<(Seq<char>, Seq<char>)> {
    let h1 = model_insert(h, "x-archive-auto-make-bucket"@, "1"@);
    let h2 = model_insert(
        h1,
        "x-archive-queue-derive"@,
        if queue_derive {
            "1"@
        } else {
            "0"@
        },
    );
    let h3 = metadata_headers_upto(h2, metadata, "meta"@, metadata.len() as int);
    metadata_headers_upto(h3, file_metadata, "filemeta"@, file_metadata.len() as int)
}

fn replace_underscores_exec(s: &str) -> (r: String)
    ensures
        r@ == replace_underscores(s@),
{
    let n = s.unicode_len();
    let mut out = String::new();
    let mut i: usize = 0;
    while i < n
        invariant
            i <= n,
            n == s@.len(),
            out@ == replace_underscores(s@.take(i as int)),
        decreases n - i,
    {
        let c = s.get_char(i);
        let ghost before = out@;
        if c == '_' {
            push_char(&mut out, '-');
            push_char(&mut out, '-');
        } else {
            push_char(&mut out, c);
        }
        proof {
            assert(s@.take(i + 1).drop_last() =~= s@.take(i as int));
            if c == '_' {
                assert(out@ =~= before + seq!['-', '-']);
            } else {
                assert(out@ =~= before + seq![c]);
            }
        }
        i = i + 1;
    }
    assert(s@.take(n as int) =~= s@);
    out
}

fn header_key(meta_type: &str, idx: usize, key: &str) -> (r: String)
    ensures
        r@ == metadata_header_key(meta_type@, idx as nat, key@),
{
    let mut raw = "x-archive-".to_owned();
    push_str(&mut raw, meta_type);
    if idx < 10 {
        push_char(&mut raw, '0');
    }
    push_decimal(&mut raw, idx);
    push_str(&mut raw, "-");
    push_str(&mut raw, key);
    proof {
        reveal_strlit("0");
        if idx < 10 {
            assert(decimal2(idx as nat) =~= seq!['0'] + decimal(idx as nat));
        }
        assert(raw@ =~= "x-archive-"@ + meta_type@ + decimal2(idx as nat) + "-"@ + key@);
    }
    replace_underscores_exec(raw.as_str())
}

fn header_value(v: &JsonValue) -> (r: String)
    ensures
        r@ == metadata_header_value(v@),
{
    match v.as_str() {
        Some(s) => {
            if needs_quote(s) {
                let mut out = "uri(".to_owned();
                let enc = url_encode(s);
                push_str(&mut out, enc.as_str());
                push_str(&mut out, ")");
                out
            } else {
                to_string(s)
            }
        },
        None => json_to_text(v),
    }
}

fn insert_header(h: &mut StrMap<String>, k: String, v: String)
    ensures
        string_map_view(*final(h)) == model_insert(string_map_view(*old(h)), k@, v@),
{
    proof {
        lemma_string_map_insert(h.entries@, k, v);
    }
    h.insert(k, v);
}

fn add_metadata_headers(headers: &mut StrMap<String>, metadata: &StrMap<JsonValue>, meta_type: &str)
    ensures
        string_map_view(*final(headers)) == metadata_headers_upto(
            string_map_view(*old(headers)),
            obj_view(*metadata),
            meta_type@,
            obj_view(*metadata).len() as int,
        ),
{
    proof {
        lemma_entries_view(metadata.entries@);
    }
    let ghost h0 = string_map_view(*headers);
    let ghost md = obj_view(*metadata);
    let mut i: usize = 0;
    while i < metadata.entries.len()
        invariant
            i <= metadata.entries@.len(),
            md == obj_view(*metadata),
            md.len() == metadata.entries@.len(),
            forall|j: int| 0 <= j < metadata.entries@.len() ==> #[trigger] md[j] == (metadata.entries@[j].0@, json_view(metadata.entries@[j].1)),
            string_map_view(*headers) == metadata_headers_upto(h0, md, meta_type@, i as int),
        decreases metadata.entries@.len() - i,
    {
        let key = metadata.entries[i].0.as_str();
        let value = &metadata.entries[i].1;
        let values: Vec<JsonValue> = match value.as_array() {
            Some(a) => duplicate_vec(a),
            None => {
                let single = vec![value.duplicate()];
                proof {
                    lemma_seq_view_push(Seq::<JsonValue>::empty(), single@[0]);
                    assert(single@ =~= Seq::<JsonValue>::empty().push(single@[0]));
                }
                single
            },
        };
        let ghost vs = json_seq_view(values@);
        assert(vs == as_list(md[i as int].1));
        let ghost acc = string_map_view(*headers);
        proof {
            lemma_seq_view(values@);
        }
        let mut idx: usize = 0;
        while idx < values.len()
            invariant
                idx <= values@.len(),
                vs == json_seq_view(values@),
                vs.len() == values@.len(),
                forall|j: int| 0 <= j < values@.len() ==> #[trigger] vs[j] == values@[j]@,
                string_map_view(*headers) == value_headers_upto(acc, meta_type@, key@, vs, idx as int),
            decreases values@.len() - idx,
        {
            if !values[idx].is_null() {
                let k = header_key(meta_type, idx, key);
                let v = header_value(&values[idx]);
                insert_header(headers, k, v);
            }
            idx = idx + 1;
        }
        i = i + 1;
    }
}

/// Add `x-archive-*` metadata headers to a header map: `auto-make-bucket`
/// set to `1`, `queue-derive` to `1` or `0`, then one header for each
/// non-null value of each metadata and file metadata key.
pub fn prepare_metadata_headers(
    headers: &mut StrMap<String>,
    metadata: &StrMap<JsonValue>,
    file_metadata: &StrMap<JsonValue>,
    queue_derive: bool,
)
    ensures
        string_map_view(*final(headers)) == prepare_metadata_headers_spec(
            string_map_view(*old(headers)),
            obj_view(*metadata),
            obj_view(*file_metadata),
            queue_derive,
        ),
        keys_sorted(old(headers).keys()) ==> keys_sorted(final(headers).keys()),
{
    let ghost h0 = string_map_view(*headers);
    proof {
        lemma_string_map_keys(headers.entries@);
    }
    insert_header(headers, "x-archive-auto-make-bucket".to_owned(), "1".to_owned());
    insert_header(
        headers,
        "x-archive-queue-derive".to_owned(),
        if queue_derive {
            "1".to_owned()
        } else {
            "0".to_owned()
        },
    );
    add_metadata_headers(headers, metadata, "meta");
    add_metadata_headers(headers, file_metadata, "filemeta");
    proof {
        lemma_string_map_keys(headers.entries@);
        if keys_sorted(model_keys(h0)) {
            law_metadata_headers_sorted(h0, obj_view(*metadata), obj_view(*file_metadata), queue_derive);
        }
    }
}

proof fn lemma_replace_underscores_concat(a: Seq<char>, b: Seq<char>)
    ensures
        replace_underscores(a + b) == replace_underscores(a) + replace_underscores(b),
    decreases b.len(),
{
    if b.len() == 0 {
        assert(a + b =~= a);
        assert(replace_underscores(a) + replace_underscores(b) =~= replace_underscores(a));
    } else {
        assert((a + b).drop_last() =~= a + b.drop_last());
        lemma_replace_underscores_concat(a, b.drop_last());
        let tail = if b.last() == '_' {
            seq!['-', '-']
        } else {
            seq![b.last()]
        };
        assert(replace_underscores(a + b) == replace_underscores(a + b.drop_last()) + tail);
        assert(replace_underscores(a) + replace_underscores(b) =~= replace_underscores(a)
            + replace_underscores(b.drop_last()) + tail);
    }
}

proof fn lemma_replace_underscores_plain(s: Seq<char>)
    requires
        forall|i: int| 0 <= i < s.len() ==> s[i] != '_',
    ensures
        replace_underscores(s) == s,
    decreases s.len(),
{
    if s.len() > 0 {
        lemma_replace_underscores_plain(s.drop_last());
        assert(s.drop_last() + seq![s.last()] =~= s);
    }
}

/// A header name that no metadata header can have: metadata header names
/// start `x-archive-meta` or `x-archive-filemeta`.
pub open spec fn not_metadata_header_name(k: Seq<char>) -> bool {
    !(k.len() > 10 && k.take(10) == "x-archive-"@ && (k[10] == 'm' || k[10] == 'f'))
}

proof fn lemma_header_key_differs(meta_type: Seq<char>, idx: nat, key: Seq<char>, fixed: Seq<char>)
    requires
        meta_type == "meta"@ || meta_type == "filemeta"@,
        not_metadata_header_name(fixed),
    ensures
        metadata_header_key(meta_type, idx, key) != fixed,
{
    reveal_strlit("x-archive-");
    reveal_strlit("meta");
    reveal_strlit("filemeta");
    reveal_strlit("-");
    let p = "x-archive-"@ + meta_type;
    let rest = decimal2(idx) + "-"@ + key;
    assert("x-archive-"@ + meta_type + decimal2(idx) + "-"@ + key =~= p + rest);
    lemma_replace_underscores_concat(p, rest);
    lemma_replace_underscores_plain(p);
    let hk = metadata_header_key(meta_type, idx, key);
    assert(hk == p + replace_underscores(rest));
    assert(hk.take(10) =~= "x-archive-"@);
    assert(hk[10] == p[10]);
}

/// The name of metadata header `idx` (below 100) of `key` is
/// `x-archive-<meta_type>`, then the index as exactly two decimal digits,
/// then `-` and the key (with `_` written `--`).
pub proof fn law_header_name_index(meta_type: Seq<char>, idx: nat, key: Seq<char>)
    requires
        meta_type == "meta"@ || meta_type == "filemeta"@,
        idx < 100,
    ensures
        ({
            let hk = metadata_header_key(meta_type, idx, key);
            let p: int = 10 + meta_type.len() as int;
            &&& hk.len() >= p + 3
            &&& hk.subrange(0, p) == "x-archive-"@ + meta_type
            &&& all_digits(hk.subrange(p, p + 2))
            &&& digits_value(hk.subrange(p, p + 2)) == idx
            &&& hk[p + 2] == '-'
            &&& hk.subrange(p + 3, hk.len() as int) == replace_underscores(key)
        }),
{
    reveal_strlit("x-archive-");
    reveal_strlit("meta");
    reveal_strlit("filemeta");
    reveal_strlit("-");
    law_decimal2_digits(idx);
    let d = decimal2(idx);
    let pre = "x-archive-"@ + meta_type;
    let mid = d + "-"@;
    assert("x-archive-"@ + meta_type + d + "-"@ + key =~= pre + (mid + key));
    lemma_replace_underscores_concat(pre, mid + key);
    lemma_replace_underscores_concat(mid, key);
    lemma_replace_underscores_plain(pre);
    assert forall|i: int| 0 <= i < mid.len() implies mid[i] != '_' by {
        if i < 2 {
            assert(crate::strings::is_digit(d[i]));
        }
    }
    lemma_replace_underscores_plain(mid);
    let hk = metadata_header_key(meta_type, idx, key);
    assert(hk == pre + mid + replace_underscores(key));
    let p: int = 10 + meta_type.len() as int;
    assert(hk.subrange(0, p) =~= pre);
    assert(hk.subrange(p, p + 2) =~= d);
    assert(hk[p + 2] == mid[2]);
    assert(hk.subrange(p + 3, hk.len() as int) =~= replace_underscores(key));
}

proof fn lemma_value_headers_keep(
    h: Seq<(Seq<char>, Seq<char>)>,
    meta_type: Seq<char>,
    key: Seq<char>,
    values: Seq<Json>,
    n: int,
    fixed: Seq<char>,
)
    requires
        meta_type == "meta"@ || meta_type == "filemeta"@,
        not_metadata_header_name(fixed),
    ensures
        model_get(value_headers_upto(h, meta_type, key, values, n), fixed) == model_get(h, fixed),
    decreases n,
{
    if n > 0 && n <= values.len() {
        lemma_value_headers_keep(h, meta_type, key, values, n - 1, fixed);
        let acc = value_headers_upto(h, meta_type, key, values, n - 1);
        if !(values[n - 1] is Null) {
            let hk = metadata_header_key(meta_type, (n - 1) as nat, key);
            lemma_header_key_differs(meta_type, (n - 1) as nat, key, fixed);
            lemma_model_insert_get(acc, hk, metadata_header_value(values[n - 1]), fixed);
        }
    }
}

proof fn lemma_metadata_headers_keep(
    h: Seq<(Seq<char>, Seq<char>)>,
    md: Entries,
    meta_type: Seq<char>,
    n: int,
    fixed: Seq<char>,
)
    requires
        meta_type == "meta"@ || meta_type == "filemeta"@,
        not_metadata_header_name(fixed),
    ensures
        model_get(metadata_headers_upto(h, md, meta_type, n), fixed) == model_get(h, fixed),
    decreases n,
{
    if n > 0 && n <= md.len() {
        lemma_metadata_headers_keep(h, md, meta_type, n - 1, fixed);
        let acc = metadata_headers_upto(h, md, meta_type, n - 1);
        let values = as_list(md[n - 1].1);
        lemma_value_headers_keep(acc, meta_type, md[n - 1].0, values, values.len() as int, fixed);
    }
}

/// Whatever the metadata, the headers that `prepare_metadata_headers` leaves
/// read `x-archive-auto-make-bucket: 1` and `x-archive-queue-derive` as `1`
/// or `0` by `queue_derive`: no metadata header can take their place.
pub proof fn law_fixed_headers_survive(
    h: Seq<(Seq<char>, Seq<char>)>,
    metadata: Entries,
    file_metadata: Entries,
    queue_derive: bool,
)
    ensures
        model_get(prepare_metadata_headers_spec(h, metadata, file_metadata, queue_derive),
            "x-archive-auto-make-bucket"@) == Some("1"@),
        model_get(prepare_metadata_headers_spec(h, metadata, file_metadata, queue_derive),
            "x-archive-queue-derive"@) == Some(if queue_derive { "1"@ } else { "0"@ }),
{
    let auto = "x-archive-auto-make-bucket"@;
    let queue = "x-archive-queue-derive"@;
    let qv = if queue_derive { "1"@ } else { "0"@ };
    reveal_strlit("x-archive-auto-make-bucket");
    reveal_strlit("x-archive-queue-derive");
    assert(auto[10] != queue[10]);
    assert(not_metadata_header_name(auto));
    assert(not_metadata_header_name(queue));
    let h1 = model_insert(h, auto, "1"@);
    let h2 = model_insert(h1, queue, qv);
    lemma_model_insert_get(h, auto, "1"@, auto);
    lemma_model_insert_get(h1, queue, qv, auto);
    lemma_model_insert_get(h1, queue, qv, queue);
    let h3 = metadata_headers_upto(h2, metadata, "meta"@, metadata.len() as int);
    lemma_metadata_headers_keep(h2, metadata, "meta"@, metadata.len() as int, auto);
    lemma_metadata_headers_keep(h2, metadata, "meta"@, metadata.len() as int, queue);
    lemma_metadata_headers_keep(h3, file_metadata, "filemeta"@, file_metadata.len() as int, auto);
    lemma_metadata_headers_keep(h3, file_metadata, "filemeta"@, file_metadata.len() as int, queue);
}

proof fn lemma_value_headers_sorted(
    h: Seq<(Seq<char>, Seq<char>)>,
    meta_type: Seq<char>,
    key: Seq<char>,
    values: Seq<Json>,
    n: int,
)
    requires
        keys_sorted(model_keys(h)),
    ensures
        keys_sorted(model_keys(value_headers_upto(h, meta_type, key, values, n))),
    decreases n,
{
    if n > 0 && n <= values.len() {
        lemma_value_headers_sorted(h, meta_type, key, values, n - 1);
        let acc = value_headers_upto(h, meta_type, key, values, n - 1);
        if !(values[n - 1] is Null) {
            law_insert_keeps_keys_sorted(
                acc,
                metadata_header_key(meta_type, (n - 1) as nat, key),
                metadata_header_value(values[n - 1]),
            );
        }
    }
}

proof fn lemma_metadata_headers_sorted(h: Seq<(Seq<char>, Seq<char>)>, md: Entries, meta_type: Seq<char>, n: int)
    requires
        keys_sorted(model_keys(h)),
    ensures
        keys_sorted(model_keys(metadata_headers_upto(h, md, meta_type, n))),
    decreases n,
{
    if n > 0 && n <= md.len() {
        lemma_metadata_headers_sorted(h, md, meta_type, n - 1);
        let acc = metadata_headers_upto(h, md, meta_type, n - 1);
        let values = as_list(md[n - 1].1);
        lemma_value_headers_sorted(acc, meta_type, md[n - 1].0, values, values.len() as int);
    }
}

/// Preparing headers keeps a header map's names in ascending order.
pub proof fn law_metadata_headers_sorted(
    h: Seq<(Seq<char>, Seq<char>)>,
    metadata: Entries,
    file_metadata: Entries,
    queue_derive: bool,
)
    requires
        keys_sorted(model_keys(h)),
    ensures
        keys_sorted(model_keys(prepare_metadata_headers_spec(h, metadata, file_metadata, queue_derive))),
{
    let qv = if queue_derive { "1"@ } else { "0"@ };
    let h1 = model_insert(h, "x-archive-auto-make-bucket"@, "1"@);
    law_insert_keeps_keys_sorted(h, "x-archive-auto-make-bucket"@, "1"@);
    let h2 = model_insert(h1, "x-archive-queue-derive"@, qv);
    law_insert_keeps_keys_sorted(h1, "x-archive-queue-derive"@, qv);
    lemma_metadata_headers_sorted(h2, metadata, "meta"@, metadata.len() as int);
    let h3 = metadata_headers_upto(h2, metadata, "meta"@, metadata.len() as int);
    lemma_metadata_headers_sorted(h3, file_metadata, "filemeta"@, file_metadata.len() as int);
}

/// Headers that are not `x-archive-*` headers are left as they were by
/// `prepare_metadata_headers`.
pub proof fn law_other_headers_untouched(
    h: Seq<(Seq<char>, Seq<char>)>,
    metadata: Entries,
    file_metadata: Entries,
    queue_derive: bool,
    k: Seq<char>,
)
    requires
        !(k.len() >= 10 && k.take(10) == "x-archive-"@),
    ensures
        model_get(prepare_metadata_headers_spec(h, metadata, file_metadata, queue_derive), k)
            == model_get(h, k),
{
    let auto = "x-archive-auto-make-bucket"@;
    let queue = "x-archive-queue-derive"@;
    let qv = if queue_derive { "1"@ } else { "0"@ };
    reveal_strlit("x-archive-auto-make-bucket");
    reveal_strlit("x-archive-queue-derive");
    reveal_strlit("x-archive-");
    assert(auto.take(10) =~= "x-archive-"@);
    assert(queue.take(10) =~= "x-archive-"@);
    assert(not_metadata_header_name(k));
    let h1 = model_insert(h, auto, "1"@);
    let h2 = model_insert(h1, queue, qv);
    lemma_model_insert_get(h, auto, "1"@, k);
    lemma_model_insert_get(h1, queue, qv, k);
    let h3 = metadata_headers_upto(h2, metadata, "meta"@, metadata.len() as int);
    lemma_metadata_headers_keep(h2, metadata, "meta"@, metadata.len() as int, k);
    lemma_metadata_headers_keep(h3, file_metadata, "filemeta"@, file_metadata.len() as int, k);
}

} // verus!

verus! {

/// The members of a value when it is an object, else none.
pub open spec fn object_entries(v: Json) -> Entries {
    match v {
        Json::Obj(es) => es,
        _ => Seq::empty(),
    }
}

/// The metadata to apply: an array as it is, an object prepared against the
/// source's members, any other value wrapped in an array; `None` when
/// preparing panics.
pub open spec fn prepared_value(md: Json, src: Json, append: bool, append_list: bool, insert: bool) -> Option<Json> {
    match md {
        Json::Arr(a) => Some(Json::Arr(a)),
        Json::Obj(es) => match prepare_metadata_spec(es, object_entries(src), append, append_list, insert) {
            Some(p) => Some(Json::Obj(p)),
            None => None,
        },
        _ => Some(Json::Arr(seq![md])),
    }
}

/// `d` with every member of `p` stored into it, in order.
pub open spec fn merge_entries_upto(d: Entries, p: Entries, n: int) -> Entries
    decreases n,
{
    if n <= 0 || n > p.len() {
        d
    } else {
        model_insert(merge_entries_upto(d, p, n - 1), p[n - 1].0, p[n - 1].1)
    }
}

/// The document the patch leads to: the source object with the prepared
/// members stored into it; for a source that is not an object, the prepared
/// array (an object prepared against it changes nothing).
pub open spec fn destination_spec(md: Json, src: Json, prepared: Json) -> Json {
    match src {
        Json::Obj(d) => match prepared {
            Json::Obj(p) => Json::Obj(merge_entries_upto(d, p, p.len() as int)),
            _ => src,
        },
        _ => if md is Arr || prepared is Arr {
            prepared
        } else {
            src
        },
    }
}

/// The JSON Pointer path that a `test` operation checks for an expected key:
/// `/base/index` for a key with `[` (index 0 when none can be read), else `/key`.
pub open spec fn expect_path(key: Seq<char>) -> Seq<char> {
    if key.contains('[') {
        let idx: usize = match key_index_value(key) {
            Some(i) => i,
            None => 0,
        };
        "/"@ + base_key_spec(key) + "/"@ + decimal(idx as nat)
    } else {
        "/"@ + key
    }
}

/// The `test` operation for an expected value.
pub open spec fn test_op(path: Seq<char>, value: Json) -> Json {
    Json::Obj(seq![("op"@, Json::Str("test"@)), ("path"@, Json::Str(path)), ("value"@, value)])
}

/// The `test` operations for the first `n` expected members.
pub open spec fn test_ops_upto(expect: Entries, n: int) -> Seq<Json>
    decreases n,
{
    if n <= 0 || n > expect.len() {
        Seq::empty()
    } else {
        test_ops_upto(expect, n - 1).push(test_op(expect_path(expect[n - 1].0), expect[n - 1].1))
    }
}

/// Reading the index of an expected key can panic.
pub open spec fn expect_panics(expect: Entries) -> bool {
    exists|i: int| 0 <= i < expect.len() && (#[trigger] expect[i]).0.contains('[') && key_index_panics(expect[i].0)
}

/// The document a patch leads to: the merged document with every
/// `REMOVE_TAG` member deleted; `None` when preparing the metadata panics.
pub open spec fn patch_destination_spec(
    md: Json,
    src: Json,
    append: bool,
    append_list: bool,
    insert: bool,
) -> Option<Json> {
    match prepared_value(md, src, append, append_list, insert) {
        None => None,
        Some(prepared) => Some(delete_items_spec(destination_spec(md, src, prepared), "REMOVE_TAG"@)),
    }
}

/// The operations of a patch: the `test` operations for `expect`, then the
/// operations `diff` of the JSON Patch; `None` when reading an expected key
/// panics.
pub open spec fn patch_ops_spec(expect: Option<Entries>, diff: Seq<Json>) -> Option<Seq<Json>> {
    match expect {
        Some(e) => if expect_panics(e) {
            None
        } else {
            Some(test_ops_upto(e, e.len() as int) + diff)
        },
        None => Some(diff),
    }
}

/// What `prepare_patch` returns: the `test` operations for `expect`, then
/// the operations of the JSON Patch from the source to the destination;
/// `None` when it panics.
pub open spec fn prepare_patch_spec(
    md: Json,
    src: Json,
    append: bool,
    expect: Option<Entries>,
    append_list: bool,
    insert: bool,
) -> Option<Seq<Json>> {
    match patch_destination_spec(md, src, append, append_list, insert) {
        None => None,
        Some(dest) => patch_ops_spec(expect, json_diff(src, dest)),
    }
}

fn merge_into(d: &mut StrMap<JsonValue>, p: &StrMap<JsonValue>)
    ensures
        obj_view(*final(d)) == merge_entries_upto(obj_view(*old(d)), obj_view(*p), obj_view(*p).len() as int),
{
    proof {
        lemma_entries_view(p.entries@);
    }
    let ghost d0 = obj_view(*d);
    let ghost pv = obj_view(*p);
    let mut i: usize = 0;
    while i < p.entries.len()
        invariant
            i <= p.entries@.len(),
            pv == obj_view(*p),
            pv.len() == p.entries@.len(),
            forall|j: int| 0 <= j < p.entries@.len() ==> #[trigger] pv[j] == (p.entries@[j].0@, json_view(p.entries@[j].1)),
            obj_view(*d) == merge_entries_upto(d0, pv, i as int),
        decreases p.entries@.len() - i,
    {
        insert_json_member(d, p.entries[i].0.clone(), p.entries[i].1.duplicate());
        i = i + 1;
    }
}

fn expect_key_panics(expect: &StrMap<JsonValue>) -> (r: bool)
    ensures
        r == expect_panics(obj_view(*expect)),
{
    proof {
        lemma_entries_view(expect.entries@);
    }
    let ghost ev = obj_view(*expect);
    let mut i: usize = 0;
    while i < expect.entries.len()
        invariant
            i <= expect.entries@.len(),
            ev == obj_view(*expect),
            ev.len() == expect.entries@.len(),
            forall|j: int| 0 <= j < expect.entries@.len() ==> #[trigger] ev[j] == (expect.entries@[j].0@, json_view(expect.entries@[j].1)),
            forall|j: int| 0 <= j < i ==> !((#[trigger] ev[j]).0.contains('[') && key_index_panics(ev[j].0)),
        decreases expect.entries@.len() - i,
    {
        let key = expect.entries[i].0.as_str();
        proof {
            lemma_find_char(key@, '[');
        }
        if find_char_index(key, '[').is_some() && index_slice_panics(key) {
            assert(ev[i as int].0.contains('[') && key_index_panics(ev[i as int].0));
            return true;
        }
        i = i + 1;
    }
    false
}

fn test_ops(expect: &StrMap<JsonValue>) -> (r: Vec<JsonValue>)
    requires
        !expect_panics(obj_view(*expect)),
    ensures
        json_seq_view(r@) == test_ops_upto(obj_view(*expect), obj_view(*expect).len() as int),
{
    proof {
        lemma_entries_view(expect.entries@);
    }
    let ghost ev = obj_view(*expect);
    let mut out: Vec<JsonValue> = Vec::new();
    let mut i: usize = 0;
    while i < expect.entries.len()
        invariant
            i <= expect.entries@.len(),
            ev == obj_view(*expect),
            !expect_panics(ev),
            ev.len() == expect.entries@.len(),
            forall|j: int| 0 <= j < expect.entries@.len() ==> #[trigger] ev[j] == (expect.entries@[j].0@, json_view(expect.entries@[j].1)),
            json_seq_view(out@) == test_ops_upto(ev, i as int),
        decreases expect.entries@.len() - i,
    {
        let key = expect.entries[i].0.as_str();
        let value = &expect.entries[i].1;
        assert(ev[i as int] == (key@, value@));
        proof {
            lemma_find_char(key@, '[');
        }
        let mut path = "/".to_owned();
        if find_char_index(key, '[').is_some() {
            let base = get_base_key(key);
            let idx: usize = match get_index(key) {
                Some(n) => n,
                None => 0,
            };
            push_str(&mut path, base.as_str());
            push_str(&mut path, "/");
            push_decimal(&mut path, idx);
        } else {
            push_str(&mut path, key);
        }
        assert(path@ =~= expect_path(key@));
        let mut entries: Vec<(String, JsonValue)> = Vec::new();
        entries.push(("op".to_owned(), JsonValue::String("test".to_owned())));
        entries.push(("path".to_owned(), JsonValue::String(path)));
        entries.push(("value".to_owned(), value.duplicate()));
        let op = JsonValue::Object(StrMap { entries });
        proof {
            lemma_entries_view(entries@);
            assert(json_entries_view(entries@) =~= seq![
                ("op"@, Json::Str("test"@)),
                ("path"@, Json::Str(expect_path(key@))),
                ("value"@, value@),
            ]);
            assert(json_view(op) == test_op(expect_path(key@), value@));
        }
        let ghost prev = out@;
        out.push(op);
        proof {
            lemma_seq_view_push(prev, op);
        }
        i = i + 1;
    }
    out
}

/// The document the patch for these metadata leads to (see
/// `patch_destination_spec`), or `None` where preparing the metadata panics.
pub fn try_patch_destination(
    metadata: &JsonValue,
    source_metadata: &JsonValue,
    append: bool,
    append_list: bool,
    insert: bool,
) -> (r: Option<JsonValue>)
    ensures
        match r {
            Some(d) => patch_destination_spec(metadata@, source_metadata@, append, append_list, insert)
                == Some(d@),
            None => patch_destination_spec(metadata@, source_metadata@, append, append_list, insert) is None,
        },
{
    let prepared = match metadata {
        JsonValue::Array(a) => JsonValue::Array(duplicate_vec(a)),
        JsonValue::Object(m) => {
            let src = source_metadata.as_object();
            match try_prepare_metadata(m, src, append, append_list, insert) {
                Some(p) => {
                    assert(source_entries(src) == object_entries(source_metadata@));
                    JsonValue::Object(p)
                },
                None => {
                    assert(source_entries(src) == object_entries(source_metadata@));
                    return None;
                },
            }
        },
        _ => {
            let single = vec![metadata.duplicate()];
            proof {
                lemma_seq_view_push(Seq::<JsonValue>::empty(), single@[0]);
                assert(single@ =~= Seq::<JsonValue>::empty().push(single@[0]));
            }
            JsonValue::Array(single)
        },
    };
    assert(Some(prepared@) == prepared_value(metadata@, source_metadata@, append, append_list, insert));
    let destination = match source_metadata {
        JsonValue::Object(d) => match &prepared {
            JsonValue::Object(p) => {
                let mut merged = duplicate_map(d);
                merge_into(&mut merged, p);
                JsonValue::Object(merged)
            },
            _ => source_metadata.duplicate(),
        },
        _ => {
            let md_is_array = match metadata {
                JsonValue::Array(_) => true,
                _ => false,
            };
            let prepared_is_array = match &prepared {
                JsonValue::Array(_) => true,
                _ => false,
            };
            if md_is_array || prepared_is_array {
                prepared.duplicate()
            } else {
                source_metadata.duplicate()
            }
        },
    };
    assert(destination@ == destination_spec(metadata@, source_metadata@, prepared@));
    let destination = delete_items_from_dict(&destination, "REMOVE_TAG");
    Some(destination)
}

/// The operations of a patch whose JSON Patch operations are `patch`: the
/// `test` operations for `expect` first; `None` where reading an expected
/// key panics.
pub fn patch_with_expectations(expect: Option<&StrMap<JsonValue>>, patch: Vec<JsonValue>) -> (r: Option<
    Vec<JsonValue>,
>)
    ensures
        match r {
            Some(ops) => patch_ops_spec(expect_view(expect), json_seq_view(patch@)) == Some(
                json_seq_view(ops@),
            ),
            None => patch_ops_spec(expect_view(expect), json_seq_view(patch@)) is None,
        },
{
    match expect {
        Some(e) => {
            if expect_key_panics(e) {
                return None;
            }
            let mut result = test_ops(e);
            let ghost tests = json_seq_view(result@);
            proof {
                lemma_seq_view(patch@);
                lemma_seq_view(result@);
            }
            let ghost p = json_seq_view(patch@);
            let mut i: usize = 0;
            while i < patch.len()
                invariant
                    i <= patch@.len(),
                    p == json_seq_view(patch@),
                    p.len() == patch@.len(),
                    forall|j: int| 0 <= j < patch@.len() ==> #[trigger] p[j] == patch@[j]@,
                    json_seq_view(result@) == tests + p.take(i as int),
                decreases patch@.len() - i,
            {
                let d = patch[i].duplicate();
                let ghost prev = result@;
                result.push(d);
                proof {
                    lemma_seq_view_push(prev, d);
                    assert(p.take(i + 1) =~= p.take(i as int).push(p[i as int]));
                }
                i = i + 1;
            }
            assert(p.take(i as int) =~= p);
            Some(result)
        },
        None => Some(patch),
    }
}

/// Create a JSON Patch from metadata changes, or `None` where
/// `prepare_patch` would panic (see `try_prepare_metadata`, and an expected
/// key whose first `]` comes before its first `[`).
pub fn try_prepare_patch(
    metadata: &JsonValue,
    source_metadata: &JsonValue,
    append: bool,
    expect: Option<&StrMap<JsonValue>>,
    append_list: bool,
    insert: bool,
) -> (r: Option<Vec<JsonValue>>)
    ensures
        match r {
            Some(ops) => Some(json_seq_view(ops@)) == prepare_patch_spec(
                metadata@,
                source_metadata@,
                append,
                expect_view(expect),
                append_list,
                insert,
            ),
            None => prepare_patch_spec(
                metadata@,
                source_metadata@,
                append,
                expect_view(expect),
                append_list,
                insert,
            ) is None,
        },
{
    let destination = match try_patch_destination(metadata, source_metadata, append, append_list, insert) {
        Some(d) => d,
        None => return None,
    };
    let patch = json_patch_diff(source_metadata, &destination);
    patch_with_expectations(expect, patch)
}

/// Create a JSON Patch from metadata changes.
pub fn prepare_patch(
    metadata: &JsonValue,
    source_metadata: &JsonValue,
    append: bool,
    expect: Option<&StrMap<JsonValue>>,
    append_list: bool,
    insert: bool,
) -> (r: Vec<JsonValue>)
    requires
        prepare_patch_spec(
            metadata@,
            source_metadata@,
            append,
            expect_view(expect),
            append_list,
            insert,
        ) is Some,
    ensures
        Some(json_seq_view(r@)) == prepare_patch_spec(
            metadata@,
            source_metadata@,
            append,
            expect_view(expect),
            append_list,
            insert,
        ),
{
    match try_prepare_patch(metadata, source_metadata, append, expect, append_list, insert) {
        Some(ops) => ops,
        None => Vec::new(),
    }
}

} // verus!

verus! {

/// One step into a document along a target path: an array element (index
/// read from `part`, 0 when unreadable), an object member, or, when there is
/// none, the same place.
pub open spec fn target_step(cur: Json, part: Seq<char>) -> Json {
    match cur {
        Json::Arr(l) => {
            let idx: int = match parse_usize(part) {
                Some(i) => i as int,
                None => 0,
            };
            if idx < l.len() {
                l[idx]
            } else {
                cur
            }
        },
        Json::Obj(es) => match model_get(es, part) {
            Some(v) => v,
            None => cur,
        },
        _ => cur,
    }
}

/// The place reached after the first `n` parts of a target path.
pub open spec fn walk_upto(src: Json, parts: Seq<Seq<char>>, n: int) -> Json
    decreases n,
{
    if n <= 0 || n > parts.len() {
        src
    } else {
        target_step(walk_upto(src, parts, n - 1), parts[n - 1])
    }
}

/// The place a target path (`/`-separated) leads to in a document.
pub open spec fn target_place(src: Json, target: Seq<char>) -> Json {
    walk_upto(src, split_char(target, '/'), split_char(target, '/').len() as int)
}

/// The members of an optional object of expected values.
pub open spec fn expect_view(expect: Option<&StrMap<JsonValue>>) -> Option<Entries> {
    match expect {
        Some(e) => Some(obj_view(*e)),
        None => None,
    }
}

fn walk_target<'a>(source: &'a JsonValue, target: &str) -> (r: &'a JsonValue)
    ensures
        r@ == target_place(source@, target@),
{
    let parts = split_at_char(target, '/');
    let ghost ps = split_char(target@, '/');
    let mut current: &JsonValue = source;
    let mut i: usize = 0;
    while i < parts.len()
        invariant
            i <= parts@.len(),
            ps == parts@.map_values(|p: String| p@),
            current@ == walk_upto(source@, ps, i as int),
        decreases parts@.len() - i,
    {
        let part = parts[i].as_str();
        assert(part@ == ps[i as int]);
        let next: &JsonValue = match current {
            JsonValue::Array(list) => {
                let idx: usize = match parse_usize_str(part) {
                    Some(n) => n,
                    None => 0,
                };
                proof {
                    lemma_seq_view(list@);
                }
                if idx < list.len() {
                    &list[idx]
                } else {
                    current
                }
            },
            JsonValue::Object(map) => match model_get_json(map, part) {
                Some(v) => v,
                None => current,
            },
            _ => current,
        };
        current = next;
        i = i + 1;
    }
    current
}

/// Create a JSON Patch for a specific metadata target path, or `None` where
/// `prepare_target_patch` would panic.
pub fn try_prepare_target_patch(
    metadata: &JsonValue,
    source_metadata: &JsonValue,
    append: bool,
    target: &str,
    append_list: bool,
    insert: bool,
    expect: Option<&StrMap<JsonValue>>,
) -> (r: Option<Vec<JsonValue>>)
    ensures
        match r {
            Some(ops) => Some(json_seq_view(ops@)) == prepare_patch_spec(
                metadata@,
                target_place(source_metadata@, target@),
                append,
                expect_view(expect),
                append_list,
                insert,
            ),
            None => prepare_patch_spec(
                metadata@,
                target_place(source_metadata@, target@),
                append,
                expect_view(expect),
                append_list,
                insert,
            ) is None,
        },
{
    let current = walk_target(source_metadata, target);
    try_prepare_patch(metadata, current, append, expect, append_list, insert)
}

/// Create a JSON Patch for a specific metadata target path: the patch of
/// `prepare_patch` against the place the path leads to in the source.
pub fn prepare_target_patch(
    metadata: &JsonValue,
    source_metadata: &JsonValue,
    append: bool,
    target: &str,
    append_list: bool,
    insert: bool,
    expect: Option<&StrMap<JsonValue>>,
) -> (r: Vec<JsonValue>)
    requires
        prepare_patch_spec(
            metadata@,
            target_place(source_metadata@, target@),
            append,
            expect_view(expect),
            append_list,
            insert,
        ) is Some,
    ensures
        Some(json_seq_view(r@)) == prepare_patch_spec(
            metadata@,
            target_place(source_metadata@, target@),
            append,
            expect_view(expect),
            append_list,
            insert,
        ),
{
    match try_prepare_target_patch(metadata, source_metadata, append, target, append_list, insert, expect) {
        Some(ops) => ops,
        None => Vec::new(),
    }
}

/// The file name a files target names: its second `/`-separated part.
pub open spec fn target_filename(target: Seq<char>) -> Seq<char> {
    let parts = split_char(target, '/');
    if parts.len() > 1 {
        parts[1]
    } else {
        Seq::empty()
    }
}

/// The `name` of a file's metadata.
pub open spec fn file_name_of(v: Json) -> Option<Seq<char>> {
    match v {
        Json::Obj(es) => match model_get(es, "name"@) {
            Some(Json::Str(s)) => Some(s),
            _ => None,
        },
        _ => None,
    }
}

/// Position of the first file whose `name` is `name`.
pub open spec fn first_file_named(files: Seq<Json>, name: Seq<char>, i: int) -> Option<int>
    decreases files.len() - i,
{
    if i < 0 || i >= files.len() {
        None
    } else if file_name_of(files[i]) == Some(name) {
        Some(i)
    } else {
        first_file_named(files, name, i + 1)
    }
}

/// What `prepare_files_patch` returns: the patch against the first file
/// named by the target, or no operation when there is none.
pub open spec fn prepare_files_patch_spec(
    md: Json,
    files: Seq<Json>,
    target: Seq<char>,
    append: bool,
    append_list: bool,
    insert: bool,
    expect: Option<Entries>,
) -> Option<Seq<Json>> {
    match first_file_named(files, target_filename(target), 0) {
        Some(i) => prepare_patch_spec(md, files[i], append, expect, append_list, insert),
        None => Some(Seq::empty()),
    }
}

fn file_named(file_meta: &JsonValue, name: &str) -> (r: bool)
    ensures
        r == (file_name_of(file_meta@) == Some(name@)),
{
    match file_meta.get("name") {
        Some(v) => match v.as_str() {
            Some(s) => str_equal(s, name),
            None => false,
        },
        None => false,
    }
}

/// Create a JSON Patch for file-level metadata, or `None` where
/// `prepare_files_patch` would panic.
pub fn try_prepare_files_patch(
    metadata: &JsonValue,
    files_metadata: &[JsonValue],
    target: &str,
    append: bool,
    append_list: bool,
    insert: bool,
    expect: Option<&StrMap<JsonValue>>,
) -> (r: Option<Vec<JsonValue>>)
    ensures
        match r {
            Some(ops) => Some(json_seq_view(ops@)) == prepare_files_patch_spec(
                metadata@,
                json_seq_view(files_metadata@),
                target@,
                append,
                append_list,
                insert,
                expect_view(expect),
            ),
            None => prepare_files_patch_spec(
                metadata@,
                json_seq_view(files_metadata@),
                target@,
                append,
                append_list,
                insert,
                expect_view(expect),
            ) is None,
        },
{
    let parts = split_at_char(target, '/');
    let filename: &str = if parts.len() > 1 {
        parts[1].as_str()
    } else {
        ""
    };
    proof {
        reveal_strlit("");
        assert(filename@ == target_filename(target@));
        lemma_seq_view(files_metadata@);
    }
    let ghost fs = json_seq_view(files_metadata@);
    let mut i: usize = 0;
    while i < files_metadata.len()
        invariant
            i <= files_metadata@.len(),
            fs == json_seq_view(files_metadata@),
            fs.len() == files_metadata@.len(),
            forall|j: int| 0 <= j < files_metadata@.len() ==> #[trigger] fs[j] == files_metadata@[j]@,
            first_file_named(fs, filename@, 0) == first_file_named(fs, filename@, i as int),
            filename@ == target_filename(target@),
        decreases files_metadata@.len() - i,
    {
        if file_named(&files_metadata[i], filename) {
            assert(first_file_named(fs, filename@, 0) == Some(i as int));
            return try_prepare_patch(metadata, &files_metadata[i], append, expect, append_list, insert);
        }
        i = i + 1;
    }
    let e: Vec<JsonValue> = Vec::new();
    assert(json_seq_view(e@) =~= Seq::<Json>::empty());
    Some(e)
}

/// Create a JSON Patch for file-level metadata: the patch of `prepare_patch`
/// against the first file whose `name` is the target's second part; no
/// operation when no file has that name.
pub fn prepare_files_patch(
    metadata: &JsonValue,
    files_metadata: &[JsonValue],
    target: &str,
    append: bool,
    append_list: bool,
    insert: bool,
    expect: Option<&StrMap<JsonValue>>,
) -> (r: Vec<JsonValue>)
    requires
        prepare_files_patch_spec(
            metadata@,
            json_seq_view(files_metadata@),
            target@,
            append,
            append_list,
            insert,
            expect_view(expect),
        ) is Some,
    ensures
        Some(json_seq_view(r@)) == prepare_files_patch_spec(
            metadata@,
            json_seq_view(files_metadata@),
            target@,
            append,
            append_list,
            insert,
            expect_view(expect),
        ),
{
    match try_prepare_files_patch(metadata, files_metadata, target, append, append_list, insert, expect) {
        Some(ops) => ops,
        None => Vec::new(),
    }
}

} // verus!

verus! {

/// Position `i` is one of the indexes.
pub open spec fn marked(idxs: Seq<usize>, i: int) -> bool {
    exists|j: int| 0 <= j < idxs.len() && #[trigger] idxs[j] as int == i
}

/// The elements of `l` whose positions are not among `idxs`, in order.
pub open spec fn keep_unmarked(l: Seq<Json>, idxs: Seq<usize>) -> Seq<Json>
    decreases l.len(),
{
    if l.len() == 0 {
        Seq::empty()
    } else {
        let rest = keep_unmarked(l.drop_last(), idxs);
        if marked(idxs, l.len() - 1) {
            rest
        } else {
            rest.push(l.last())
        }
    }
}

pub open spec fn strictly_descending(d: Seq<usize>) -> bool {
    forall|i: int, j: int| 0 <= i < j < d.len() ==> #[trigger] d[i] > #[trigger] d[j]
}

proof fn lemma_keep_same_marks(l: Seq<Json>, a: Seq<usize>, b: Seq<usize>)
    requires
        forall|i: int| 0 <= i < l.len() ==> marked(a, i) == marked(b, i),
    ensures
        keep_unmarked(l, a) == keep_unmarked(l, b),
    decreases l.len(),
{
    if l.len() > 0 {
        lemma_keep_same_marks(l.drop_last(), a, b);
        assert(marked(a, l.len() - 1) == marked(b, l.len() - 1));
    }
}

proof fn lemma_keep_remove(l: Seq<Json>, d: Seq<usize>, r: Seq<usize>, p: int)
    requires
        0 <= p < l.len(),
        forall|i: int| marked(d, i) == (i == p || marked(r, i)),
        forall|i: int| marked(r, i) ==> i < p,
    ensures
        keep_unmarked(l.remove(p), r) == keep_unmarked(l, d),
    decreases l.len(),
{
    let l0 = l.drop_last();
    if p == l.len() - 1 {
        assert(l.remove(p) =~= l0);
        assert(marked(d, p));
        assert forall|i: int| 0 <= i < l0.len() implies marked(r, i) == marked(d, i) by {
            assert(marked(d, i) == (i == p || marked(r, i)));
        }
        lemma_keep_same_marks(l0, r, d);
    } else {
        let lr = l.remove(p);
        assert(lr.drop_last() =~= l0.remove(p));
        assert(lr.last() == l.last());
        lemma_keep_remove(l0, d, r, p);
        assert(!marked(r, lr.len() - 1));
        assert(marked(d, l.len() - 1) == (l.len() - 1 == p || marked(r, l.len() - 1)));
        assert(!marked(r, l.len() - 1));
    }
}

proof fn lemma_remove_descending(l: Seq<Json>, d: Seq<usize>)
    requires
        strictly_descending(d),
    ensures
        remove_indexes(l, d) == keep_unmarked(l, d),
    decreases d.len(),
{
    if d.len() == 0 {
        lemma_keep_none(l, d);
    } else {
        let p = d[0] as int;
        let r = d.drop_first();
        assert forall|i: int, j: int| 0 <= i < j < r.len() implies #[trigger] r[i] > #[trigger] r[j] by {
            assert(r[i] == d[i + 1] && r[j] == d[j + 1]);
        }
        assert forall|i: int| marked(d, i) == (i == p || marked(r, i)) by {
            if marked(d, i) {
                let j = choose|j: int| 0 <= j < d.len() && #[trigger] d[j] as int == i;
                if j > 0 {
                    assert(r[j - 1] as int == i);
                }
            }
            if marked(r, i) {
                let j = choose|j: int| 0 <= j < r.len() && #[trigger] r[j] as int == i;
                assert(d[j + 1] as int == i);
            }
            if i == p {
                assert(d[0] as int == i);
            }
        }
        assert forall|i: int| marked(r, i) implies i < p by {
            let j = choose|j: int| 0 <= j < r.len() && #[trigger] r[j] as int == i;
            assert(d[0] > d[j + 1]);
        }
        if p < l.len() {
            lemma_remove_descending(l.remove(p), r);
            lemma_keep_remove(l, d, r, p);
        } else {
            lemma_remove_descending(l, r);
            assert forall|i: int| 0 <= i < l.len() implies marked(r, i) == marked(d, i) by {}
            lemma_keep_same_marks(l, r, d);
        }
    }
}

proof fn lemma_keep_none(l: Seq<Json>, d: Seq<usize>)
    requires
        d.len() == 0,
    ensures
        keep_unmarked(l, d) == l,
    decreases l.len(),
{
    if l.len() > 0 {
        lemma_keep_none(l.drop_last(), d);
        assert(l.drop_last().push(l.last()) =~= l);
    }
}

proof fn lemma_insert_descending_order(s: Seq<usize>, x: usize)
    requires
        strictly_descending(s),
        !s.contains(x),
    ensures
        strictly_descending(insert_descending(s, x)),
        forall|y: usize| #[trigger] insert_descending(s, x).contains(y) <==> (s.contains(y) || y == x),
    decreases s.len(),
{
    let r = insert_descending(s, x);
    if s.len() == 0 {
        assert(r == seq![x]);
        assert forall|y: usize| #[trigger] r.contains(y) <==> (s.contains(y) || y == x) by {
            if r.contains(y) {
                let k = choose|k: int| 0 <= k < r.len() && r[k] == y;
            }
            if y == x {
                assert(r[0] == x);
            }
        }
    } else if s[0] < x {
        assert(r == seq![x] + s);
        assert forall|i: int, j: int| 0 <= i < j < r.len() implies #[trigger] r[i] > #[trigger] r[j] by {
            if i == 0 {
                assert(r[j] == s[j - 1]);
                if j - 1 > 0 {
                    assert(s[0] > s[j - 1]);
                }
            } else {
                assert(r[i] == s[i - 1] && r[j] == s[j - 1]);
            }
        }
        assert forall|y: usize| #[trigger] r.contains(y) <==> (s.contains(y) || y == x) by {
            if r.contains(y) {
                let k = choose|k: int| 0 <= k < r.len() && r[k] == y;
                if k > 0 {
                    assert(s[k - 1] == y);
                }
            }
            if s.contains(y) {
                let k = choose|k: int| 0 <= k < s.len() && s[k] == y;
                assert(r[k + 1] == y);
            }
            if y == x {
                assert(r[0] == x);
            }
        }
    } else {
        let t = s.drop_first();
        assert forall|i: int, j: int| 0 <= i < j < t.len() implies #[trigger] t[i] > #[trigger] t[j] by {
            assert(t[i] == s[i + 1] && t[j] == s[j + 1]);
        }
        assert(!t.contains(x)) by {
            if t.contains(x) {
                let k = choose|k: int| 0 <= k < t.len() && t[k] == x;
                assert(s[k + 1] == x);
            }
        }
        assert(s[0] != x) by {
            if s[0] == x {
                assert(s.contains(x));
            }
        }
        lemma_insert_descending_order(t, x);
        let rt = insert_descending(t, x);
        assert(r == seq![s[0]] + rt);
        assert forall|i: int, j: int| 0 <= i < j < r.len() implies #[trigger] r[i] > #[trigger] r[j] by {
            if i == 0 {
                assert(r[j] == rt[j - 1]);
                assert(rt.contains(rt[j - 1]));
                if t.contains(rt[j - 1]) {
                    let k = choose|k: int| 0 <= k < t.len() && t[k] == rt[j - 1];
                    assert(s[0] > s[k + 1]);
                }
            } else {
                assert(r[i] == rt[i - 1] && r[j] == rt[j - 1]);
            }
        }
        assert forall|y: usize| #[trigger] r.contains(y) <==> (s.contains(y) || y == x) by {
            if r.contains(y) {
                let k = choose|k: int| 0 <= k < r.len() && r[k] == y;
                if k > 0 {
                    assert(rt[k - 1] == y);
                    assert(rt.contains(y));
                    if t.contains(y) {
                        let m = choose|m: int| 0 <= m < t.len() && t[m] == y;
                        assert(s[m + 1] == y);
                    }
                } else {
                    assert(s[0] == y);
                }
            }
            if s.contains(y) {
                let k = choose|k: int| 0 <= k < s.len() && s[k] == y;
                if k == 0 {
                    assert(r[0] == y);
                } else {
                    assert(t[k - 1] == y);
                    assert(rt.contains(y));
                    let m = choose|m: int| 0 <= m < rt.len() && rt[m] == y;
                    assert(r[m + 1] == y);
                }
            }
            if y == x {
                assert(rt.contains(x));
                let m = choose|m: int| 0 <= m < rt.len() && rt[m] == x;
                assert(r[m + 1] == x);
            }
        }
    }
}

proof fn lemma_sorted_descending_order(s: Seq<usize>)
    requires
        forall|i: int, j: int| 0 <= i < j < s.len() ==> #[trigger] s[i] != #[trigger] s[j],
    ensures
        strictly_descending(sorted_descending(s)),
        forall|y: usize| #[trigger] sorted_descending(s).contains(y) <==> s.contains(y),
    decreases s.len(),
{
    if s.len() == 0 {
        assert forall|y: usize| #[trigger] sorted_descending(s).contains(y) <==> s.contains(y) by {
            assert(sorted_descending(s) =~= Seq::<usize>::empty());
        }
    } else {
        let init = s.drop_last();
        assert forall|i: int, j: int| 0 <= i < j < init.len() implies #[trigger] init[i] != #[trigger] init[j] by {
            assert(init[i] == s[i] && init[j] == s[j]);
        }
        lemma_sorted_descending_order(init);
        let si = sorted_descending(init);
        assert(!si.contains(s.last())) by {
            if si.contains(s.last()) {
                assert(init.contains(s.last()));
                let k = choose|k: int| 0 <= k < init.len() && init[k] == s.last();
                assert(s[k] == s[s.len() - 1]);
            }
        }
        lemma_insert_descending_order(si, s.last());
        assert forall|y: usize| #[trigger] sorted_descending(s).contains(y) <==> s.contains(y) by {
            if s.contains(y) {
                let k = choose|k: int| 0 <= k < s.len() && s[k] == y;
                if k < s.len() - 1 {
                    assert(init[k] == y);
                    assert(init.contains(y));
                }
            }
            if init.contains(y) {
                let k = choose|k: int| 0 <= k < init.len() && init[k] == y;
                assert(s[k] == y);
            }
            if y == s.last() {
                assert(s[s.len() - 1] == y);
            }
        }
    }
}

/// Removing marked positions from a list (each `REMOVE_TAG` index of a key)
/// removes exactly those positions: the result is the elements at unmarked
/// positions, in order, whatever order the distinct indexes were listed in
/// (removal goes from the largest index down, so no removal shifts another).
pub proof fn law_remove_marked_positions(l: Seq<Json>, idxs: Seq<usize>)
    requires
        forall|i: int, j: int| 0 <= i < j < idxs.len() ==> #[trigger] idxs[i] != #[trigger] idxs[j],
    ensures
        remove_indexes(l, sorted_descending(idxs)) == keep_unmarked(l, idxs),
{
    lemma_sorted_descending_order(idxs);
    let d = sorted_descending(idxs);
    lemma_remove_descending(l, d);
    assert forall|i: int| 0 <= i < l.len() implies marked(d, i) == marked(idxs, i) by {
        if marked(d, i) {
            let j = choose|j: int| 0 <= j < d.len() && #[trigger] d[j] as int == i;
            assert(d.contains(d[j]));
            let k = choose|k: int| 0 <= k < idxs.len() && idxs[k] == d[j];
            assert(idxs[k] as int == i);
        }
        if marked(idxs, i) {
            let j = choose|j: int| 0 <= j < idxs.len() && #[trigger] idxs[j] as int == i;
            assert(idxs.contains(idxs[j]));
            assert(sorted_descending(idxs).contains(idxs[j]));
            assert(d.contains(idxs[j]));
            let k = choose|k: int| 0 <= k < d.len() && d[k] == idxs[j];
            assert(d[k] as int == i);
        }
    }
    lemma_keep_same_marks(l, d, idxs);
}

} // verus!
