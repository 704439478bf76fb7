use vstd::prelude::*;

use crate::json::{
    json_wf, lemma_entries_view, json_seq_view, lemma_entries_view_insert, lemma_seq_view, lemma_seq_view_push, model_get_json, obj_view, Json,
    JsonValue,
};
use crate::strings::{push_str, to_string};
use crate::strmap::{
    insert_index, key_index, keys_sorted, lemma_insert_index_from, lemma_model_insert_get, lemma_sorted_entries_eq, law_insert_keeps_keys_sorted, model_get, model_insert,
    model_keys, StrMap,
};

verus! {

/// Archive.org account details.
#[derive(Debug, Clone, PartialEq, Eq)]
pub struct Account {
    pub locked: bool,
    pub verified: bool,
    pub email: String,
    pub canonical_email: String,
    pub itemname: String,
    pub screenname: String,
    pub notifications: Vec<String>,
    pub has_disability_access: bool,
    pub lastlogin: String,
    pub createdate: String,
}

/// The content of an `Account`.
pub struct AccountView {
    pub locked: bool,
    pub verified: bool,
    pub email: Seq<char>,
    pub canonical_email: Seq<char>,
    pub itemname: Seq<char>,
    pub screenname: Seq<char>,
    pub notifications: Seq<Seq<char>>,
    pub has_disability_access: bool,
    pub lastlogin: Seq<char>,
    pub createdate: Seq<char>,
}

impl View for Account {
    type V = AccountView;

    open spec fn view(&self) -> AccountView {
        AccountView {
            locked: self.locked,
            verified: self.verified,
            email: self.email@,
            canonical_email: self.canonical_email@,
            itemname: self.itemname@,
            screenname: self.screenname@,
            notifications: self.notifications@.map_values(|s: String| s@),
            has_disability_access: self.has_disability_access,
            lastlogin: self.lastlogin@,
            createdate: self.createdate@,
        }
    }
}

/// The error text for a missing member.
pub open spec fn missing_field_message(key: Seq<char>) -> Seq<char> {
    "Missing required field in JSON data: "@ + key
}

/// The members read after `notifications`, in the order they are checked.
pub open spec fn account_fields_after_notifications() -> Seq<Seq<char>> {
    seq![
        "locked"@,
        "verified"@,
        "email"@,
        "canonical_email"@,
        "itemname"@,
        "screenname"@,
        "has_disability_access"@,
        "lastlogin"@,
        "createdate"@,
    ]
}

/// The first of `keys` (from position `i` on) that the object lacks.
pub open spec fn first_missing_from(m: Seq<(Seq<char>, Json)>, keys: Seq<Seq<char>>, i: int) -> Option<
    Seq<char>,
>
    decreases keys.len() - i,
{
    if i < 0 || i >= keys.len() {
        None
    } else if model_get(m, keys[i]) is None {
        Some(keys[i])
    } else {
        first_missing_from(m, keys, i + 1)
    }
}

/// A boolean member, `false` when it is not a boolean.
pub open spec fn bool_or_false(j: Option<Json>) -> bool {
    match j {
        Some(Json::Bool(b)) => b,
        _ => false,
    }
}

/// A string member, empty when it is not a string.
pub open spec fn str_or_empty(j: Option<Json>) -> Seq<char> {
    match j {
        Some(Json::Str(s)) => s,
        _ => Seq::empty(),
    }
}

/// The strings among `items`, in order; other values are skipped.
pub open spec fn string_items(items: Seq<Json>) -> Seq<Seq<char>>
    decreases items.len(),
{
    if items.len() == 0 {
        Seq::empty()
    } else {
        let rest = string_items(items.drop_last());
        match items.last() {
            Json::Str(s) => rest.push(s),
            _ => rest,
        }
    }
}

/// What `Account::from_json` gives for an object with members `m`.
pub open spec fn account_from_entries(m: Seq<(Seq<char>, Json)>) -> Result<AccountView, Seq<char>> {
    match model_get(m, "notifications"@) {
        None => Err(missing_field_message("notifications"@)),
        Some(Json::Arr(items)) => match first_missing_from(m, account_fields_after_notifications(), 0) {
            Some(k) => Err(missing_field_message(k)),
            None => Ok(
                AccountView {
                    locked: bool_or_false(model_get(m, "locked"@)),
                    verified: bool_or_false(model_get(m, "verified"@)),
                    email: str_or_empty(model_get(m, "email"@)),
                    canonical_email: str_or_empty(model_get(m, "canonical_email"@)),
                    itemname: str_or_empty(model_get(m, "itemname"@)),
                    screenname: str_or_empty(model_get(m, "screenname"@)),
                    notifications: string_items(items),
                    has_disability_access: bool_or_false(model_get(m, "has_disability_access"@)),
                    lastlogin: str_or_empty(model_get(m, "lastlogin"@)),
                    createdate: str_or_empty(model_get(m, "createdate"@)),
                },
            ),
        },
        Some(_) => Err("notifications must be an array"@),
    }
}

pub open spec fn account_result_view(r: Result<Account, String>) -> Result<AccountView, Seq<char>> {
    match r {
        Ok(a) => Ok(a@),
        Err(e) => Err(e@),
    }
}

/// The members `Account::to_json` writes, in the order it inserts them.
pub open spec fn account_members(a: AccountView) -> Seq<(Seq<char>, Json)> {
    seq![
        ("locked"@, Json::Bool(a.locked)),
        ("verified"@, Json::Bool(a.verified)),
        ("email"@, Json::Str(a.email)),
        ("canonical_email"@, Json::Str(a.canonical_email)),
        ("itemname"@, Json::Str(a.itemname)),
        ("screenname"@, Json::Str(a.screenname)),
        ("notifications"@, Json::Arr(a.notifications.map_values(|s: Seq<char>| Json::Str(s)))),
        ("has_disability_access"@, Json::Bool(a.has_disability_access)),
        ("lastlogin"@, Json::Str(a.lastlogin)),
        ("createdate"@, Json::Str(a.createdate)),
    ]
}

/// The members of an object built by inserting `pairs` one after the other
/// into an empty one.
pub open spec fn inserted_all(pairs: Seq<(Seq<char>, Json)>) -> Seq<(Seq<char>, Json)>
    decreases pairs.len(),
{
    if pairs.len() == 0 {
        Seq::empty()
    } else {
        model_insert(inserted_all(pairs.drop_last()), pairs.last().0, pairs.last().1)
    }
}

/// The JSON object `Account::to_json` builds.
pub open spec fn account_to_entries(a: AccountView) -> Seq<(Seq<char>, Json)> {
    inserted_all(account_members(a))
}

fn missing_field(key: &str) -> (r: String)
    ensures
        r@ == missing_field_message(key@),
{
    let mut s = "Missing required field in JSON data: ".to_owned();
    push_str(&mut s, key);
    s
}

fn bool_member(m: &StrMap<JsonValue>, key: &str) -> (r: bool)
    ensures
        r == bool_or_false(model_get(obj_view(*m), key@)),
{
    match model_get_json(m, key) {
        Some(v) => match v.as_bool() {
            Some(b) => b,
            None => false,
        },
        None => false,
    }
}

fn str_member(m: &StrMap<JsonValue>, key: &str) -> (r: String)
    ensures
        r@ == str_or_empty(model_get(obj_view(*m), key@)),
{
    match model_get_json(m, key) {
        Some(v) => match v.as_str() {
            Some(s) => to_string(s),
            None => String::new(),
        },
        None => String::new(),
    }
}

fn string_items_of(items: &Vec<JsonValue>) -> (r: Vec<String>)
    ensures
        r@.map_values(|s: String| s@) == string_items(json_seq_view(items@)),
{
    proof {
        lemma_seq_view(items@);
    }
    let mut out: Vec<String> = Vec::new();
    let mut i: usize = 0;
    while i < items.len()
        invariant
            i <= items@.len(),
            json_seq_view(items@).len() == items@.len(),
            forall|j: int| 0 <= j < items@.len() ==> #[trigger] json_seq_view(items@)[j] == items@[j]@,
            out@.map_values(|s: String| s@) == string_items(json_seq_view(items@).take(i as int)),
        decreases items@.len() - i,
    {
        proof {
            let t = json_seq_view(items@).take(i + 1);
            assert(t.drop_last() =~= json_seq_view(items@).take(i as int));
            assert(t.last() == items@[i as int]@);
        }
        match items[i].as_str() {
            Some(s) => {
                let ghost prev = out@;
                let owned = to_string(s);
                out.push(owned);
                assert(out@.map_values(|s: String| s@) =~= prev.map_values(|s: String| s@).push(owned@));
            },
            None => {},
        }
        i = i + 1;
    }
    assert(json_seq_view(items@).take(i as int) =~= json_seq_view(items@));
    out
}

fn insert_member(m: &mut StrMap<JsonValue>, key: &str, v: JsonValue)
    ensures
        obj_view(*final(m)) == model_insert(obj_view(*old(m)), key@, v@),
{
    let k = to_string(key);
    proof {
        lemma_entries_view_insert(m.entries@, k, v);
    }
    m.insert(k, v);
}

fn strings_to_json(v: &Vec<String>) -> (r: JsonValue)
    ensures
        r@ == Json::Arr(v@.map_values(|s: String| s@).map_values(|s: Seq<char>| Json::Str(s))),
{
    let mut out: Vec<JsonValue> = Vec::new();
    let mut i: usize = 0;
    while i < v.len()
        invariant
            i <= v@.len(),
            json_seq_view(out@) == v@.take(i as int).map_values(|s: String| s@).map_values(
                |s: Seq<char>| Json::Str(s),
            ),
        decreases v@.len() - i,
    {
        let item = JsonValue::String(v[i].clone());
        let ghost prev = out@;
        out.push(item);
        proof {
            lemma_seq_view_push(prev, item);
        }
        assert(v@.take(i + 1).map_values(|s: String| s@).map_values(|s: Seq<char>| Json::Str(s))
            =~= v@.take(i as int).map_values(|s: String| s@).map_values(|s: Seq<char>| Json::Str(s)).push(
            Json::Str(v@[i as int]@),
        ));
        i = i + 1;
    }
    assert(v@.take(i as int) =~= v@);
    JsonValue::Array(out)
}

impl Account {
    /// Build an account from JSON data. `notifications` must be present and
    /// an array (its strings are kept); every other field must be present,
    /// and a field of the wrong kind reads as `false` or the empty string.
    pub fn from_json(json_data: &StrMap<JsonValue>) -> (r: Result<Self, String>)
        ensures
            account_result_view(r) == account_from_entries(obj_view(*json_data)),
    {
        let ghost m = obj_view(*json_data);
        let notifications = match model_get_json(json_data, "notifications") {
            None => return Err(missing_field("notifications")),
            Some(v) => match v.as_array() {
                Some(items) => string_items_of(items),
                None => return Err("notifications must be an array".to_owned()),
            },
        };
        let ghost keys = account_fields_after_notifications();
        proof {
            reveal_with_fuel(first_missing_from, 10);
        }
        if model_get_json(json_data, "locked").is_none() {
            return Err(missing_field("locked"));
        }
        if model_get_json(json_data, "verified").is_none() {
            return Err(missing_field("verified"));
        }
        if model_get_json(json_data, "email").is_none() {
            return Err(missing_field("email"));
        }
        if model_get_json(json_data, "canonical_email").is_none() {
            return Err(missing_field("canonical_email"));
        }
        if model_get_json(json_data, "itemname").is_none() {
            return Err(missing_field("itemname"));
        }
        if model_get_json(json_data, "screenname").is_none() {
            return Err(missing_field("screenname"));
        }
        if model_get_json(json_data, "has_disability_access").is_none() {
            return Err(missing_field("has_disability_access"));
        }
        if model_get_json(json_data, "lastlogin").is_none() {
            return Err(missing_field("lastlogin"));
        }
        if model_get_json(json_data, "createdate").is_none() {
            return Err(missing_field("createdate"));
        }
        Ok(
            Account {
                locked: bool_member(json_data, "locked"),
                verified: bool_member(json_data, "verified"),
                email: str_member(json_data, "email"),
                canonical_email: str_member(json_data, "canonical_email"),
                itemname: str_member(json_data, "itemname"),
                screenname: str_member(json_data, "screenname"),
                notifications,
                has_disability_access: bool_member(json_data, "has_disability_access"),
                lastlogin: str_member(json_data, "lastlogin"),
                createdate: str_member(json_data, "createdate"),
            },
        )
    }

    /// Convert the account to a JSON object holding every field.
    pub fn to_json(&self) -> (r: StrMap<JsonValue>)
        ensures
            obj_view(r) == account_to_entries(self@),
            keys_sorted(r.keys()),
            json_wf(Json::Obj(obj_view(r))),
    {
        let mut out: StrMap<JsonValue> = StrMap::new();
        assert(obj_view(out) =~= Seq::<(Seq<char>, Json)>::empty());
        insert_member(&mut out, "locked", JsonValue::Bool(self.locked));
        insert_member(&mut out, "verified", JsonValue::Bool(self.verified));
        insert_member(&mut out, "email", JsonValue::String(self.email.clone()));
        insert_member(&mut out, "canonical_email", JsonValue::String(self.canonical_email.clone()));
        insert_member(&mut out, "itemname", JsonValue::String(self.itemname.clone()));
        insert_member(&mut out, "screenname", JsonValue::String(self.screenname.clone()));
        insert_member(&mut out, "notifications", strings_to_json(&self.notifications));
        insert_member(&mut out, "has_disability_access", JsonValue::Bool(self.has_disability_access));
        insert_member(&mut out, "lastlogin", JsonValue::String(self.lastlogin.clone()));
        insert_member(&mut out, "createdate", JsonValue::String(self.createdate.clone()));
        proof {
            let pairs = account_members(self@);
            assert forall|n: int| 1 <= n <= 10 implies #[trigger] pairs.take(n).drop_last() == pairs.take(n - 1) by {
                assert(pairs.take(n).drop_last() =~= pairs.take(n - 1));
            }
            assert(pairs.take(10) =~= pairs);
            reveal_with_fuel(inserted_all, 11);
            lemma_entries_view(out.entries@);
            lemma_inserted_all_sorted(pairs);
            assert forall|i: int| 0 <= i < pairs.len() implies json_wf((#[trigger] pairs[i]).1) by {
                let n = self@.notifications.map_values(|x: Seq<char>| Json::Str(x));
                assert forall|j: int| 0 <= j < n.len() implies json_wf(#[trigger] n[j]) by {
                    assert(n[j] is Str);
                }
            }
            lemma_inserted_all_wf(pairs);
        }
        out
    }
}

} // verus!

verus! {

proof fn lemma_string_items_of_strs(s: Seq<Seq<char>>)
    ensures
        string_items(s.map_values(|x: Seq<char>| Json::Str(x))) == s,
    decreases s.len(),
{
    if s.len() > 0 {
        lemma_string_items_of_strs(s.drop_last());
        assert(s.map_values(|x: Seq<char>| Json::Str(x)).drop_last() =~= s.drop_last().map_values(
            |x: Seq<char>| Json::Str(x),
        ));
    } else {
        assert(s =~= Seq::<Seq<char>>::empty());
    }
}

/// Inserting pairs with distinct keys one after the other: each key reads
/// the value inserted with it.
proof fn lemma_inserted_all_get(pairs: Seq<(Seq<char>, Json)>, i: int)
    requires
        0 <= i < pairs.len(),
        forall|j: int, l: int| 0 <= j < l < pairs.len() ==> (#[trigger] pairs[j]).0 != (#[trigger] pairs[l]).0,
    ensures
        model_get(inserted_all(pairs), pairs[i].0) == Some(pairs[i].1),
    decreases pairs.len(),
{
    let init = pairs.drop_last();
    let last = pairs.last();
    lemma_model_insert_get(inserted_all(init), last.0, last.1, pairs[i].0);
    if i < pairs.len() - 1 {
        assert(init[i] == pairs[i]);
        assert forall|j: int, l: int| 0 <= j < l < init.len() implies (#[trigger] init[j]).0
            != (#[trigger] init[l]).0 by {
            assert(init[j] == pairs[j] && init[l] == pairs[l]);
        }
        lemma_inserted_all_get(init, i);
        assert(pairs[i].0 != last.0);
    }
}

/// The ten account keys are distinct, and the object `to_json` builds
/// reads each member's value under its key.
proof fn lemma_account_members_read(a: AccountView)
    ensures
        forall|j: int, l: int|
            0 <= j < l < account_members(a).len() ==> (#[trigger] account_members(a)[j]).0
                != (#[trigger] account_members(a)[l]).0,
        forall|i: int|
            0 <= i < account_members(a).len() ==> model_get(
                account_to_entries(a),
                #[trigger] account_members(a)[i].0,
            ) == Some(account_members(a)[i].1),
{
    reveal_strlit("locked");
    reveal_strlit("verified");
    reveal_strlit("email");
    reveal_strlit("canonical_email");
    reveal_strlit("itemname");
    reveal_strlit("screenname");
    reveal_strlit("notifications");
    reveal_strlit("has_disability_access");
    reveal_strlit("lastlogin");
    reveal_strlit("createdate");
    let pairs = account_members(a);
    assert("verified"@[0] != "itemname"@[0]);
    assert("screenname"@[0] != "createdate"@[0]);
    assert forall|j: int, l: int| 0 <= j < l < pairs.len() implies (#[trigger] pairs[j]).0
        != (#[trigger] pairs[l]).0 by {
        if pairs[j].0 == pairs[l].0 {
            assert(pairs[j].0.len() == pairs[l].0.len());
            assert(pairs[j].0[0] == pairs[l].0[0]);
        }
    }
    assert forall|i: int| 0 <= i < pairs.len() implies model_get(account_to_entries(a), #[trigger] pairs[i].0)
        == Some(pairs[i].1) by {
        lemma_inserted_all_get(pairs, i);
    }
}

/// Reading back an account's JSON object gives the account: `from_json`
/// undoes `to_json`.
pub proof fn law_account_json_round_trip(a: AccountView)
    ensures
        account_from_entries(account_to_entries(a)) == Ok::<AccountView, Seq<char>>(a),
{
    lemma_account_members_read(a);
    let pairs = account_members(a);
    let m = account_to_entries(a);
    assert(model_get(m, "locked"@) == Some(pairs[0].1));
    assert(model_get(m, "verified"@) == Some(pairs[1].1));
    assert(model_get(m, "email"@) == Some(pairs[2].1));
    assert(model_get(m, "canonical_email"@) == Some(pairs[3].1));
    assert(model_get(m, "itemname"@) == Some(pairs[4].1));
    assert(model_get(m, "screenname"@) == Some(pairs[5].1));
    assert(model_get(m, "notifications"@) == Some(pairs[6].1));
    assert(model_get(m, "has_disability_access"@) == Some(pairs[7].1));
    assert(model_get(m, "lastlogin"@) == Some(pairs[8].1));
    assert(model_get(m, "createdate"@) == Some(pairs[9].1));
    lemma_string_items_of_strs(a.notifications);
    reveal_with_fuel(first_missing_from, 10);
}

/// One of the ten members of an account object.
pub open spec fn is_account_key(k: Seq<char>) -> bool {
    ||| k == "locked"@
    ||| k == "verified"@
    ||| k == "email"@
    ||| k == "canonical_email"@
    ||| k == "itemname"@
    ||| k == "screenname"@
    ||| k == "notifications"@
    ||| k == "has_disability_access"@
    ||| k == "lastlogin"@
    ||| k == "createdate"@
}

pub open spec fn is_bool_member(m: Seq<(Seq<char>, Json)>, k: Seq<char>) -> bool {
    model_get(m, k) matches Some(Json::Bool(_))
}

pub open spec fn is_str_member(m: Seq<(Seq<char>, Json)>, k: Seq<char>) -> bool {
    model_get(m, k) matches Some(Json::Str(_))
}

/// An object of the shape `to_json` writes: keys in ascending order, exactly
/// the ten account members, `locked`, `verified` and
/// `has_disability_access` booleans, `notifications` an array of strings,
/// the other six strings.
pub open spec fn is_account_object(m: Seq<(Seq<char>, Json)>) -> bool {
    &&& keys_sorted(model_keys(m))
    &&& forall|k: Seq<char>| #[trigger] model_get(m, k) is Some ==> is_account_key(k)
    &&& is_bool_member(m, "locked"@)
    &&& is_bool_member(m, "verified"@)
    &&& is_bool_member(m, "has_disability_access"@)
    &&& is_str_member(m, "email"@)
    &&& is_str_member(m, "canonical_email"@)
    &&& is_str_member(m, "itemname"@)
    &&& is_str_member(m, "screenname"@)
    &&& is_str_member(m, "lastlogin"@)
    &&& is_str_member(m, "createdate"@)
    &&& model_get(m, "notifications"@) matches Some(Json::Arr(items)) && forall|i: int|
        0 <= i < items.len() ==> #[trigger] items[i] is Str
}

proof fn lemma_strs_of_string_items(items: Seq<Json>)
    requires
        forall|i: int| 0 <= i < items.len() ==> #[trigger] items[i] is Str,
    ensures
        string_items(items).map_values(|x: Seq<char>| Json::Str(x)) == items,
    decreases items.len(),
{
    if items.len() > 0 {
        let init = items.drop_last();
        assert forall|i: int| 0 <= i < init.len() implies #[trigger] init[i] is Str by {
            assert(init[i] == items[i]);
        }
        lemma_strs_of_string_items(init);
        assert(items.last() is Str);
        assert(string_items(items).map_values(|x: Seq<char>| Json::Str(x)) =~= string_items(init).map_values(
            |x: Seq<char>| Json::Str(x),
        ).push(items.last()));
        assert(init.push(items.last()) =~= items);
    } else {
        assert(string_items(items).map_values(|x: Seq<char>| Json::Str(x)) =~= items);
    }
}

proof fn lemma_inserted_all_sorted(pairs: Seq<(Seq<char>, Json)>)
    ensures
        keys_sorted(model_keys(inserted_all(pairs))),
    decreases pairs.len(),
{
    if pairs.len() == 0 {
        assert(model_keys(inserted_all(pairs)) =~= Seq::<Seq<char>>::empty());
    } else {
        lemma_inserted_all_sorted(pairs.drop_last());
        law_insert_keeps_keys_sorted(inserted_all(pairs.drop_last()), pairs.last().0, pairs.last().1);
    }
}

proof fn lemma_inserted_all_wf(pairs: Seq<(Seq<char>, Json)>)
    requires
        forall|i: int| 0 <= i < pairs.len() ==> json_wf((#[trigger] pairs[i]).1),
    ensures
        forall|i: int| 0 <= i < inserted_all(pairs).len() ==> json_wf((#[trigger] inserted_all(pairs)[i]).1),
    decreases pairs.len(),
{
    if pairs.len() > 0 {
        let init = pairs.drop_last();
        assert forall|i: int| 0 <= i < init.len() implies json_wf((#[trigger] init[i]).1) by {
            assert(init[i] == pairs[i]);
        }
        lemma_inserted_all_wf(init);
        let acc = inserted_all(init);
        let (k, v) = pairs.last();
        assert(json_wf(pairs[pairs.len() - 1].1));
        let r = inserted_all(pairs);
        match key_index(model_keys(acc), k) {
            Some(j) => {
                crate::strmap::lemma_key_index(model_keys(acc), k);
                assert(r == acc.update(j, (k, v)));
                assert forall|i: int| 0 <= i < r.len() implies json_wf((#[trigger] r[i]).1) by {
                    if i != j {
                        assert(r[i] == acc[i]);
                    }
                }
            },
            None => {
                lemma_insert_index_from(model_keys(acc), k, 0);
                let p = insert_index(model_keys(acc), k);
                assert(r == acc.insert(p, (k, v)));
                assert forall|i: int| 0 <= i < r.len() implies json_wf((#[trigger] r[i]).1) by {
                    if i < p {
                        assert(r[i] == acc[i]);
                    } else if i > p {
                        assert(r[i] == acc[i - 1]);
                    }
                }
            },
        }
    }
}

proof fn lemma_inserted_all_absent(pairs: Seq<(Seq<char>, Json)>, k: Seq<char>)
    requires
        forall|i: int| 0 <= i < pairs.len() ==> (#[trigger] pairs[i]).0 != k,
    ensures
        model_get(inserted_all(pairs), k) is None,
    decreases pairs.len(),
{
    if pairs.len() == 0 {
        assert(model_keys(inserted_all(pairs)) =~= Seq::<Seq<char>>::empty());
    } else {
        let init = pairs.drop_last();
        assert forall|i: int| 0 <= i < init.len() implies (#[trigger] init[i]).0 != k by {
            assert(init[i] == pairs[i]);
        }
        lemma_inserted_all_absent(init, k);
        assert(pairs[pairs.len() - 1].0 != k);
        lemma_model_insert_get(inserted_all(init), pairs.last().0, pairs.last().1, k);
    }
}

/// Writing back an account read from an account object gives the object:
/// `to_json` undoes `from_json` on every object of the shape `to_json`
/// writes, keys in ascending order.
pub proof fn law_account_object_round_trip(m: Seq<(Seq<char>, Json)>)
    requires
        is_account_object(m),
    ensures
        account_from_entries(m) is Ok,
        account_to_entries(account_from_entries(m)->Ok_0) == m,
{
    reveal_strlit("locked");
    reveal_strlit("verified");
    reveal_strlit("email");
    reveal_strlit("canonical_email");
    reveal_strlit("itemname");
    reveal_strlit("screenname");
    reveal_strlit("notifications");
    reveal_strlit("has_disability_access");
    reveal_strlit("lastlogin");
    reveal_strlit("createdate");
    reveal_with_fuel(first_missing_from, 10);
    let items = model_get(m, "notifications"@)->0->Arr_0;
    assert(account_from_entries(m) is Ok);
    let a = account_from_entries(m)->Ok_0;
    lemma_strs_of_string_items(items);
    lemma_account_members_read(a);
    let pairs = account_members(a);
    let r = account_to_entries(a);
    lemma_inserted_all_sorted(pairs);
    assert forall|k: Seq<char>| #[trigger] model_get(r, k) == model_get(m, k) by {
        if is_account_key(k) {
            if k == "locked"@ {
                assert(k == pairs[0].0);
            } else if k == "verified"@ {
                assert(k == pairs[1].0);
            } else if k == "email"@ {
                assert(k == pairs[2].0);
            } else if k == "canonical_email"@ {
                assert(k == pairs[3].0);
            } else if k == "itemname"@ {
                assert(k == pairs[4].0);
            } else if k == "screenname"@ {
                assert(k == pairs[5].0);
            } else if k == "notifications"@ {
                assert(k == pairs[6].0);
            } else if k == "has_disability_access"@ {
                assert(k == pairs[7].0);
            } else if k == "lastlogin"@ {
                assert(k == pairs[8].0);
            } else {
                assert(k == pairs[9].0);
            }
        } else {
            assert(model_get(m, k) is None);
            assert forall|i: int| 0 <= i < pairs.len() implies (#[trigger] pairs[i]).0 != k by {
                assert(is_account_key(pairs[i].0));
            }
            lemma_inserted_all_absent(pairs, k);
        }
    }
    lemma_sorted_entries_eq(r, m);
}

} // verus!

verus! {

/// The string held by a member, or empty when it holds no string.
pub open spec fn text_at(m: Seq<(Seq<char>, Json)>, k: Seq<char>) -> Seq<char> {
    match model_get(m, k) {
        Some(Json::Str(s)) => s,
        _ => Seq::empty(),
    }
}

/// `from_json` reads each field from the member of the same name: a boolean
/// field is `true` exactly when its member is `true`, a text field is its
/// member's string (empty when the member is not a string), and an array of
/// strings gives the notifications in order.
pub proof fn law_from_json_reads_fields_by_name(m: Seq<(Seq<char>, Json)>)
    requires
        account_from_entries(m) is Ok,
    ensures
        ({
            let a = account_from_entries(m)->Ok_0;
            &&& a.locked == (model_get(m, "locked"@) == Some(Json::Bool(true)))
            &&& a.verified == (model_get(m, "verified"@) == Some(Json::Bool(true)))
            &&& a.has_disability_access == (model_get(m, "has_disability_access"@) == Some(
                Json::Bool(true),
            ))
            &&& a.email == text_at(m, "email"@)
            &&& a.canonical_email == text_at(m, "canonical_email"@)
            &&& a.itemname == text_at(m, "itemname"@)
            &&& a.screenname == text_at(m, "screenname"@)
            &&& a.lastlogin == text_at(m, "lastlogin"@)
            &&& a.createdate == text_at(m, "createdate"@)
            &&& (model_get(m, "notifications"@) matches Some(Json::Arr(items)) ==> ((forall|i: int|
                0 <= i < items.len() ==> #[trigger] items[i] is Str) ==> a.notifications.map_values(
                |s: Seq<char>| Json::Str(s),
            ) == items))
        }),
{
    let items = model_get(m, "notifications"@)->0->Arr_0;
    if forall|i: int| 0 <= i < items.len() ==> #[trigger] items[i] is Str {
        lemma_strs_of_string_items(items);
    }
}

/// `to_json` writes each field under the member of the same name.
pub proof fn law_to_json_writes_fields_by_name(a: AccountView)
    ensures
        ({
            let m = account_to_entries(a);
            &&& model_get(m, "locked"@) == Some(Json::Bool(a.locked))
            &&& model_get(m, "verified"@) == Some(Json::Bool(a.verified))
            &&& model_get(m, "email"@) == Some(Json::Str(a.email))
            &&& model_get(m, "canonical_email"@) == Some(Json::Str(a.canonical_email))
            &&& model_get(m, "itemname"@) == Some(Json::Str(a.itemname))
            &&& model_get(m, "screenname"@) == Some(Json::Str(a.screenname))
            &&& model_get(m, "notifications"@) == Some(
                Json::Arr(a.notifications.map_values(|s: Seq<char>| Json::Str(s))),
            )
            &&& model_get(m, "has_disability_access"@) == Some(Json::Bool(a.has_disability_access))
            &&& model_get(m, "lastlogin"@) == Some(Json::Str(a.lastlogin))
            &&& model_get(m, "createdate"@) == Some(Json::Str(a.createdate))
        }),
{
    lemma_account_members_read(a);
    let pairs = account_members(a);
    assert(pairs[0].0 == "locked"@);
    assert(pairs[1].0 == "verified"@);
    assert(pairs[2].0 == "email"@);
    assert(pairs[3].0 == "canonical_email"@);
    assert(pairs[4].0 == "itemname"@);
    assert(pairs[5].0 == "screenname"@);
    assert(pairs[6].0 == "notifications"@);
    assert(pairs[7].0 == "has_disability_access"@);
    assert(pairs[8].0 == "lastlogin"@);
    assert(pairs[9].0 == "createdate"@);
}

} // verus!
