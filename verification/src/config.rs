use vstd::prelude::*;

use crate::strings::str_equal;
use crate::strings::lemma_seq_lt_order;
use crate::strmap::{entries_insert, entry_keys, insert_index, key_index, keys_sorted, lemma_insert_index_from, lemma_key_index, lemma_key_index_push, lemma_key_index_unique, lemma_sorted_entries_eq, law_insert_keeps_keys_sorted, lemma_model_insert_get, model_get, model_insert, model_keys, StrMap};

verus! {

/// A recursive configuration value used to merge nested config maps.
/// A float is held as its IEEE 754 bit pattern (`f64::to_bits`).
#[derive(Debug)]
pub enum ConfigValue {
    Null,
    Bool(bool),
    Integer(i64),
    Float(u64),
    String(String),
    List(Vec<ConfigValue>),
    Table(ConfigMap),
}

/// The nested configuration shape used by the Rust core.
pub type ConfigMap = StrMap<ConfigValue>;

/// The content of a configuration value.
pub enum Config {
    Null,
    Bool(bool),
    Integer(i64),
    Float(u64),
    Str(Seq<char>),
    List(Seq<Config>),
    Table(Seq<(Seq<char>, Config)>),
}

pub open spec fn config_view(v: ConfigValue) -> Config
    decreases v,
{
    match v {
        ConfigValue::Null => Config::Null,
        ConfigValue::Bool(b) => Config::Bool(b),
        ConfigValue::Integer(i) => Config::Integer(i),
        ConfigValue::Float(f) => Config::Float(f),
        ConfigValue::String(s) => Config::Str(s@),
        ConfigValue::List(l) => Config::List(config_seq_view(l@)),
        ConfigValue::Table(m) => Config::Table(config_entries_view(m.entries@)),
    }
}

pub open spec fn config_seq_view(s: Seq<ConfigValue>) -> Seq<Config>
    decreases s,
{
    if s.len() == 0 {
        Seq::empty()
    } else {
        config_seq_view(s.drop_last()).push(config_view(s.last()))
    }
}

pub open spec fn config_entries_view(s: Seq<(String, ConfigValue)>) -> Seq<(Seq<char>, Config)>
    decreases s,
{
    if s.len() == 0 {
        Seq::empty()
    } else {
        config_entries_view(s.drop_last()).push((s.last().0@, config_view(s.last().1)))
    }
}

impl View for ConfigValue {
    type V = Config;

    open spec fn view(&self) -> Config {
        config_view(*self)
    }
}

/// The entries of a configuration map.
pub open spec fn config_map_view(m: ConfigMap) -> Seq<(Seq<char>, Config)> {
    config_entries_view(m.entries@)
}

pub proof fn lemma_config_seq_view(s: Seq<ConfigValue>)
    ensures
        config_seq_view(s).len() == s.len(),
        forall|i: int| 0 <= i < s.len() ==> #[trigger] config_seq_view(s)[i] == config_view(s[i]),
    decreases s.len(),
{
    if s.len() > 0 {
        lemma_config_seq_view(s.drop_last());
    }
}

pub proof fn lemma_config_entries_view(s: Seq<(String, ConfigValue)>)
    ensures
        config_entries_view(s).len() == s.len(),
        forall|i: int|
            0 <= i < s.len() ==> #[trigger] config_entries_view(s)[i] == (s[i].0@, config_view(
                s[i].1,
            )),
        model_keys(config_entries_view(s)) == entry_keys(s),
    decreases s.len(),
{
    if s.len() > 0 {
        lemma_config_entries_view(s.drop_last());
    }
    assert(model_keys(config_entries_view(s)) =~= entry_keys(s));
}

/// Float equality on bit patterns as `f64 == f64`: `0.0 == -0.0`, and a NaN
/// equals nothing.
pub open spec fn float_bits_eq(a: u64, b: u64) -> bool {
    let is_nan_a = (a & 0x7FF0_0000_0000_0000u64) == 0x7FF0_0000_0000_0000u64 && (a
        & 0x000F_FFFF_FFFF_FFFFu64) != 0;
    let zero_a = (a & 0x7FFF_FFFF_FFFF_FFFFu64) == 0;
    let zero_b = (b & 0x7FFF_FFFF_FFFF_FFFFu64) == 0;
    (a == b && !is_nan_a) || (zero_a && zero_b)
}

/// `==` on configuration values: structural, floats compared as `f64`.
pub open spec fn config_eq(a: Config, b: Config) -> bool
    decreases a,
{
    match a {
        Config::Null => b is Null,
        Config::Bool(x) => b matches Config::Bool(y) && x == y,
        Config::Integer(x) => b matches Config::Integer(y) && x == y,
        Config::Float(x) => b matches Config::Float(y) && float_bits_eq(x, y),
        Config::Str(x) => b matches Config::Str(y) && x == y,
        Config::List(x) => match b {
            Config::List(y) => x.len() == y.len() && forall|i: int|
                0 <= i < x.len() ==> config_eq(#[trigger] x[i], y[i]),
            _ => false,
        },
        Config::Table(x) => match b {
            Config::Table(y) => x.len() == y.len() && forall|i: int|
                0 <= i < x.len() ==> (#[trigger] x[i]).0 == y[i].0 && config_eq(x[i].1, y[i].1),
            _ => false,
        },
    }
}

fn float_bits_equal(a: u64, b: u64) -> (r: bool)
    ensures
        r == float_bits_eq(a, b),
{
    let is_nan_a = (a & 0x7FF0_0000_0000_0000u64) == 0x7FF0_0000_0000_0000u64 && (a
        & 0x000F_FFFF_FFFF_FFFFu64) != 0;
    let zero_a = (a & 0x7FFF_FFFF_FFFF_FFFFu64) == 0;
    let zero_b = (b & 0x7FFF_FFFF_FFFF_FFFFu64) == 0;
    (a == b && !is_nan_a) || (zero_a && zero_b)
}

/// `a == b` on configuration values.
#[verifier::loop_isolation(false)]
pub fn config_equal(a: &ConfigValue, b: &ConfigValue) -> (r: bool)
    ensures
        r == config_eq(a@, b@),
    decreases a,
{
    match (a, b) {
        (ConfigValue::Null, ConfigValue::Null) => true,
        (ConfigValue::Bool(x), ConfigValue::Bool(y)) => *x == *y,
        (ConfigValue::Integer(x), ConfigValue::Integer(y)) => *x == *y,
        (ConfigValue::Float(x), ConfigValue::Float(y)) => float_bits_equal(*x, *y),
        (ConfigValue::String(x), ConfigValue::String(y)) => str_equal(x.as_str(), y.as_str()),
        (ConfigValue::List(x), ConfigValue::List(y)) => {
            proof {
                lemma_config_seq_view(x@);
                lemma_config_seq_view(y@);
            }
            if x.len() != y.len() {
                return false;
            }
            let mut i: usize = 0;
            while i < x.len()
                invariant
                    i <= x@.len(),
                    x@.len() == y@.len(),
                    forall|j: int| 0 <= j < i ==> config_eq(config_view(x@[j]), config_view(y@[j])),
                decreases x@.len() - i,
            {
                proof {
                    assert(decreases_to!(*a => x@[i as int]));
                }
                if !config_equal(&x[i], &y[i]) {
                    assert(!config_eq(config_seq_view(x@)[i as int], config_seq_view(y@)[i as int]));
                    return false;
                }
                i = i + 1;
            }
            true
        },
        (ConfigValue::Table(x), ConfigValue::Table(y)) => {
            proof {
                lemma_config_entries_view(x.entries@);
                lemma_config_entries_view(y.entries@);
            }
            if x.entries.len() != y.entries.len() {
                return false;
            }
            let mut i: usize = 0;
            while i < x.entries.len()
                invariant
                    i <= x.entries@.len(),
                    x.entries@.len() == y.entries@.len(),
                    forall|j: int|
                        0 <= j < i ==> x.entries@[j].0@ == y.entries@[j].0@ && config_eq(
                            config_view(x.entries@[j].1),
                            config_view(y.entries@[j].1),
                        ),
                decreases x.entries@.len() - i,
            {
                proof {
                    assert(decreases_to!(*a => x.entries@[i as int].1));
                }
                if !str_equal(x.entries[i].0.as_str(), y.entries[i].0.as_str()) {
                    assert(config_entries_view(x.entries@)[i as int].0 != config_entries_view(
                        y.entries@,
                    )[i as int].0);
                    return false;
                }
                if !config_equal(&x.entries[i].1, &y.entries[i].1) {
                    assert(!config_eq(
                        config_entries_view(x.entries@)[i as int].1,
                        config_entries_view(y.entries@)[i as int].1,
                    ));
                    return false;
                }
                i = i + 1;
            }
            true
        },
        _ => false,
    }
}

impl PartialEq for ConfigValue {
    fn eq(&self, other: &Self) -> (r: bool) {
        config_equal(self, other)
    }
}

impl vstd::std_specs::cmp::PartialEqSpecImpl for ConfigValue {
    open spec fn obeys_eq_spec() -> bool {
        true
    }

    open spec fn eq_spec(&self, other: &Self) -> bool {
        config_eq(self@, other@)
    }
}

impl ConfigValue {
    /// A deep copy.
    #[verifier::loop_isolation(false)]
    pub fn duplicate(&self) -> (r: ConfigValue)
        ensures
            r@ == self@,
        decreases self,
    {
        match self {
            ConfigValue::Null => ConfigValue::Null,
            ConfigValue::Bool(b) => ConfigValue::Bool(*b),
            ConfigValue::Integer(i) => ConfigValue::Integer(*i),
            ConfigValue::Float(f) => ConfigValue::Float(*f),
            ConfigValue::String(s) => ConfigValue::String(s.clone()),
            ConfigValue::List(a) => {
                let mut out: Vec<ConfigValue> = Vec::new();
                let mut i: usize = 0;
                while i < a.len()
                    invariant
                        i <= a@.len(),
                        config_seq_view(out@) == config_seq_view(a@.take(i as int)),
                    decreases a@.len() - i,
                {
                    proof {
                        assert(decreases_to!(*self => a@[i as int]));
                    }
                    let item = a[i].duplicate();
                    proof {
                        assert(out@.push(item).drop_last() =~= out@);
                        assert(a@.take(i as int).push(a@[i as int]).drop_last() =~= a@.take(i as int));
                        assert(a@.take(i as int).push(a@[i as int]) =~= a@.take(i + 1));
                    }
                    out.push(item);
                    i = i + 1;
                }
                assert(a@.take(i as int) =~= a@);
                ConfigValue::List(out)
            },
            ConfigValue::Table(m) => {
                let mut out: Vec<(String, ConfigValue)> = Vec::new();
                let mut i: usize = 0;
                while i < m.entries.len()
                    invariant
                        i <= m.entries@.len(),
                        config_entries_view(out@) == config_entries_view(m.entries@.take(i as int)),
                    decreases m.entries@.len() - i,
                {
                    proof {
                        assert(decreases_to!(*self => m.entries@[i as int].1));
                    }
                    let item = (m.entries[i].0.clone(), m.entries[i].1.duplicate());
                    proof {
                        let t = m.entries@.take(i as int);
                        assert(out@.push(item).drop_last() =~= out@);
                        assert(t.push(m.entries@[i as int]).drop_last() =~= t);
                        assert(t.push(m.entries@[i as int]) =~= m.entries@.take(i + 1));
                    }
                    out.push(item);
                    i = i + 1;
                }
                assert(m.entries@.take(i as int) =~= m.entries@);
                ConfigValue::Table(StrMap { entries: out })
            },
        }
    }
}

impl Clone for ConfigValue {
    /// A deep copy.
    fn clone(&self) -> (r: Self)
        ensures
            r@ == self@,
    {
        self.duplicate()
    }
}

/// The entries of `t` after merging `u` into it, key by key in `u`'s order:
/// a map merged into a map merges recursively; anything else replaces.
pub open spec fn deep_update_spec(t: Seq<(Seq<char>, Config)>, u: Seq<(Seq<char>, Config)>) -> Seq<
    (Seq<char>, Config),
>
    decreases u,
{
    if u.len() == 0 {
        t
    } else {
        let acc = deep_update_spec(t, u.drop_last());
        let k = u.last().0;
        let v = u.last().1;
        match (model_get(acc, k), v) {
            (Some(Config::Table(e)), Config::Table(inc)) => model_insert(
                acc,
                k,
                Config::Table(deep_update_spec(e, inc)),
            ),
            _ => model_insert(acc, k, v),
        }
    }
}

proof fn lemma_config_insert(s: Seq<(String, ConfigValue)>, k: String, v: ConfigValue)
    ensures
        config_entries_view(entries_insert(s, k, v)) == model_insert(config_entries_view(s), k@, config_view(v)),
{
    lemma_config_entries_view(s);
    let r = entries_insert(s, k, v);
    lemma_config_entries_view(r);
    lemma_key_index(entry_keys(s), k@);
    match key_index(entry_keys(s), k@) {
        Some(i) => {
            assert(config_entries_view(r) =~= config_entries_view(s).update(i, (k@, config_view(v))));
        },
        None => {
            let p = insert_index(entry_keys(s), k@);
            lemma_insert_index_from(entry_keys(s), k@, 0);
            assert(config_entries_view(r) =~= config_entries_view(s).insert(p, (k@, config_view(v))));
        },
    }
}

/// Recursively merge `updates` into `target`.
#[verifier::loop_isolation(false)]
pub fn deep_update(target: &mut ConfigMap, updates: &ConfigMap)
    ensures
        config_map_view(*final(target)) == deep_update_spec(config_map_view(*old(target)), config_map_view(*updates)),
        keys_sorted(old(target).keys()) ==> keys_sorted(final(target).keys()),
    decreases updates,
{
    proof {
        lemma_config_entries_view(target.entries@);
        if keys_sorted(target.keys()) {
            lemma_deep_update_sorted(config_map_view(*target), config_map_view(*updates));
        }
    }
    let ghost sorted_before = keys_sorted(target.keys());
    let ghost t0 = config_map_view(*target);
    let ghost u = config_map_view(*updates);
    proof {
        lemma_config_entries_view(updates.entries@);
    }
    let mut i: usize = 0;
    while i < updates.entries.len()
        invariant
            i <= updates.entries@.len(),
            u == config_map_view(*updates),
            config_map_view(*target) == deep_update_spec(t0, u.take(i as int)),
            sorted_before ==> keys_sorted(model_keys(deep_update_spec(t0, u))),
        decreases updates.entries@.len() - i,
    {
        let key = &updates.entries[i].0;
        let value = &updates.entries[i].1;
        let ghost acc = config_map_view(*target);
        proof {
            assert(u.take(i + 1).drop_last() =~= u.take(i as int));
            assert(u.take(i + 1).last() == (key@, config_view(*value)));
            lemma_config_entries_view(target.entries@);
            lemma_key_index(target.keys(), key@);
        }
        let mut merged = false;
        match target.find(key.as_str()) {
            Some(j) => {
                match value {
                    ConfigValue::Table(incoming) => {
                        let is_map = match &target.entries[j].1 {
                            ConfigValue::Table(_) => true,
                            _ => false,
                        };
                        if is_map {
                            let (k, v) = target.entries.remove(j);
                            match v {
                                ConfigValue::Table(mut existing) => {
                                    proof {
                                        assert(decreases_to!(*updates => *incoming));
                                        assert(model_get(acc, key@) == Some(config_view(ConfigValue::Table(existing))));
                                    }
                                    deep_update(&mut existing, incoming);
                                    target.entries.insert(j, (k, ConfigValue::Table(existing)));
                                    proof {
                                        lemma_config_entries_view(target.entries@);
                                        assert(config_map_view(*target) =~= model_insert(
                                            acc,
                                            key@,
                                            Config::Table(deep_update_spec(config_map_view(v->Table_0), config_map_view(*incoming))),
                                        ));
                                    }
                                    merged = true;
                                },
                                _ => {},
                            }
                        }
                    },
                    _ => {},
                }
            },
            None => {},
        }
        if !merged {
            let k = key.clone();
            let v = value.duplicate();
            proof {
                lemma_config_insert(target.entries@, k, v);
            }
            target.insert(k, v);
        }
        i = i + 1;
    }
    assert(u.take(i as int) =~= u);
    proof {
        lemma_config_entries_view(target.entries@);
    }
}

} // verus!

verus! {

/// The value a key holds after a merge, given what it held before and the
/// incoming value: a map into a map merges recursively, anything else
/// replaces.
pub open spec fn merged_value(before: Option<Config>, incoming: Config) -> Config {
    match (before, incoming) {
        (Some(Config::Table(e)), Config::Table(inc)) => Config::Table(deep_update_spec(e, inc)),
        _ => incoming,
    }
}

/// Merging `u` into `t`, where `u`'s keys are strictly ascending (as in any
/// map): a key of `u` reads its merged value, and every other key reads what
/// it read in `t`.
pub proof fn law_deep_update_get(t: Seq<(Seq<char>, Config)>, u: Seq<(Seq<char>, Config)>, k: Seq<char>)
    requires
        keys_sorted(model_keys(u)),
    ensures
        model_get(deep_update_spec(t, u), k) == match model_get(u, k) {
            Some(v) => Some(merged_value(model_get(t, k), v)),
            None => model_get(t, k),
        },
    decreases u.len(),
{
    if u.len() > 0 {
        let init = u.drop_last();
        let uk = model_keys(u);
        let ik = model_keys(init);
        assert(uk =~= ik.push(u.last().0));
        assert(keys_sorted(ik)) by {
            assert forall|i: int, j: int| 0 <= i < j < ik.len() implies crate::strings::seq_lt(
                #[trigger] ik[i],
                #[trigger] ik[j],
            ) by {
                assert(ik[i] == uk[i] && ik[j] == uk[j]);
            }
        }
        law_deep_update_get(t, init, k);
        let acc = deep_update_spec(t, init);
        let kl = u.last().0;
        let v = u.last().1;
        let nv = match (model_get(acc, kl), v) {
            (Some(Config::Table(e)), Config::Table(inc)) => Config::Table(deep_update_spec(e, inc)),
            _ => v,
        };
        assert(deep_update_spec(t, u) == model_insert(acc, kl, nv));
        lemma_model_insert_get(acc, kl, nv, k);
        if k == kl {
            assert forall|l: int| 0 <= l < ik.len() implies ik[l] != k by {
                assert(crate::strings::seq_lt(uk[l], uk[uk.len() - 1]));
                lemma_seq_lt_order(uk[l], uk[l], uk[l]);
            }
            lemma_key_index(ik, k);
            lemma_key_index_unique(uk, k, uk.len() - 1);
            law_deep_update_get(t, init, kl);
        } else {
            lemma_key_index_push(ik, kl, k);
            lemma_key_index(ik, k);
            match key_index(ik, k) {
                Some(j) => {
                    assert(u[j] == init[j]);
                },
                None => {},
            }
        }
    }
}

} // verus!

verus! {

/// A well-formed configuration value: every table, at every depth, has its
/// keys in strictly ascending order, as a `BTreeMap` holds them.
pub open spec fn config_wf(c: Config) -> bool
    decreases c,
{
    match c {
        Config::List(l) => forall|i: int| 0 <= i < l.len() ==> config_wf(#[trigger] l[i]),
        Config::Table(es) => keys_sorted(model_keys(es)) && forall|i: int|
            0 <= i < es.len() ==> config_wf((#[trigger] es[i]).1),
        _ => true,
    }
}

/// The entries of a well-formed table.
pub open spec fn table_wf(es: Seq<(Seq<char>, Config)>) -> bool {
    config_wf(Config::Table(es))
}

/// Merging keeps a table's keys in ascending order.
pub proof fn lemma_deep_update_sorted(t: Seq<(Seq<char>, Config)>, u: Seq<(Seq<char>, Config)>)
    requires
        keys_sorted(model_keys(t)),
    ensures
        keys_sorted(model_keys(deep_update_spec(t, u))),
    decreases u.len(),
{
    if u.len() > 0 {
        lemma_deep_update_sorted(t, u.drop_last());
        let acc = deep_update_spec(t, u.drop_last());
        let k = u.last().0;
        let v = u.last().1;
        let nv = match (model_get(acc, k), v) {
            (Some(Config::Table(e)), Config::Table(inc)) => Config::Table(deep_update_spec(e, inc)),
            _ => v,
        };
        law_insert_keeps_keys_sorted(acc, k, nv);
    }
}

/// Where `k` is found in a table, and that the value there is a part of it.
proof fn lemma_table_get(es: Seq<(Seq<char>, Config)>, k: Seq<char>) -> (j: int)
    requires
        model_get(es, k) is Some,
    ensures
        0 <= j < es.len(),
        model_get(es, k) == Some(es[j].1),
{
    lemma_key_index(model_keys(es), k);
    key_index(model_keys(es), k)->0
}

/// Merging a well-formed table into itself changes nothing.
pub proof fn lemma_deep_update_self(x: Seq<(Seq<char>, Config)>)
    requires
        table_wf(x),
    ensures
        deep_update_spec(x, x) == x,
    decreases x,
{
    let r = deep_update_spec(x, x);
    lemma_deep_update_sorted(x, x);
    assert forall|k: Seq<char>| #[trigger] model_get(r, k) == model_get(x, k) by {
        law_deep_update_get(x, x, k);
        if model_get(x, k) is Some {
            let j = lemma_table_get(x, k);
            assert(config_wf(x[j].1));
            if let Config::Table(inc) = x[j].1 {
                assert(decreases_to!(x => x[j]));
                lemma_deep_update_self(inc);
            }
        }
    }
    lemma_sorted_entries_eq(r, x);
}

/// Merging the same updates a second time changes nothing (for well-formed
/// tables).
pub proof fn law_deep_update_idempotent(t: Seq<(Seq<char>, Config)>, u: Seq<(Seq<char>, Config)>)
    requires
        table_wf(t),
        table_wf(u),
    ensures
        deep_update_spec(deep_update_spec(t, u), u) == deep_update_spec(t, u),
    decreases u,
{
    let r = deep_update_spec(t, u);
    let r2 = deep_update_spec(r, u);
    lemma_deep_update_sorted(t, u);
    lemma_deep_update_sorted(r, u);
    assert forall|k: Seq<char>| #[trigger] model_get(r2, k) == model_get(r, k) by {
        law_deep_update_get(t, u, k);
        law_deep_update_get(r, u, k);
        if model_get(u, k) is Some {
            let j = lemma_table_get(u, k);
            assert(config_wf(u[j].1));
            if let Config::Table(inc) = u[j].1 {
                assert(decreases_to!(u => u[j]));
                match model_get(t, k) {
                    Some(Config::Table(e)) => {
                        let i = lemma_table_get(t, k);
                        assert(config_wf(t[i].1));
                        law_deep_update_idempotent(e, inc);
                    },
                    _ => {
                        lemma_deep_update_self(inc);
                    },
                }
            }
        }
    }
    lemma_sorted_entries_eq(r2, r);
}

} // verus!

verus! {

/// What the merged target reads at any key `k`, where the updates' keys are
/// in ascending order (as in any map):
/// - a key the updates lack reads what the target read;
/// - an update value that is not a table replaces the target's value,
///   whatever it was;
/// - a table update replaces a target value that is missing or not a
///   table, and is merged recursively into a target table.
pub proof fn law_deep_update_values(t: Seq<(Seq<char>, Config)>, u: Seq<(Seq<char>, Config)>, k: Seq<char>)
    requires
        keys_sorted(model_keys(u)),
    ensures
        model_get(u, k) is None ==> model_get(deep_update_spec(t, u), k) == model_get(t, k),
        model_get(u, k) matches Some(v) ==> (!(v is Table) ==> model_get(deep_update_spec(t, u), k)
            == Some(v)),
        model_get(u, k) matches Some(Config::Table(inc)) ==> match model_get(t, k) {
            Some(Config::Table(e)) => model_get(deep_update_spec(t, u), k) == Some(
                Config::Table(deep_update_spec(e, inc)),
            ),
            _ => model_get(deep_update_spec(t, u), k) == Some(Config::Table(inc)),
        },
{
    law_deep_update_get(t, u, k);
}

} // verus!
