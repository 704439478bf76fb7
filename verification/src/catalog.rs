use vstd::prelude::*;

use crate::json::{duplicate_map, model_get_json, obj_view, Json, JsonValue, Num};
use crate::strings::{lemma_split_char_nonempty, push_char, push_str, split_at_char, split_char, str_equal, to_string};
use crate::strmap::{model_get, StrMap};

verus! {

/// Statuses that mean a task is still active: `running`, `queued`, `paused`.
pub open spec fn is_active_status(s: Seq<char>) -> bool {
    s == "running"@ || s == "queued"@ || s == "paused"@
}

/// Statuses that mean a task is still active.
pub fn active_task_statuses() -> (r: Vec<&'static str>)
    ensures
        r@.map_values(|s: &str| s@) == seq!["running"@, "queued"@, "paused"@],
{
    let r = vec!["running", "queued", "paused"];
    assert(r@.map_values(|s: &str| s@) =~= seq!["running"@, "queued"@, "paused"@]);
    r
}

/// Return true when a task status is active.
pub fn task_is_active(status: Option<&str>) -> (r: bool)
    ensures
        r == (status matches Some(s) && is_active_status(s@)),
{
    match status {
        Some(s) => str_equal(s, "running") || str_equal(s, "queued") || str_equal(s, "paused"),
        None => false,
    }
}

/// Determine whether a task log should be followed based on a status:
/// exactly while the task is active.
pub fn task_log_should_continue(status: Option<&str>) -> (r: bool)
    ensures
        r == (status matches Some(s) && is_active_status(s@)),
{
    task_is_active(status)
}

/// A point in time in UTC: seconds since the Unix epoch and nanoseconds.
#[derive(Debug, Clone, Copy, PartialEq, Eq, Structural)]
pub struct UtcTimestamp {
    pub secs: i64,
    pub nanos: u32,
}

/// What `chrono::NaiveDateTime::parse_from_str(s, fmt)` yields, read as a
/// UTC time: seconds since the epoch and nanoseconds; `None` when parsing fails.
pub uninterp spec fn naive_utc_parse(s: Seq<char>, fmt: Seq<char>) -> Option<(i64, u32)>;

/// `chrono::NaiveDateTime::parse_from_str(s, fmt)`, taken as UTC. The
/// contract claims only that the outcome depends on `s` and `fmt` alone; it
/// is named `naive_utc_parse`.
#[verifier::external_body]
fn parse_naive_utc(s: &str, fmt: &str) -> (r: Option<UtcTimestamp>)
    ensures
        r == match naive_utc_parse(s@, fmt@) {
            Some((secs, nanos)) => Some(UtcTimestamp { secs, nanos }),
            None => None,
        },
{
    match chrono::NaiveDateTime::parse_from_str(s, fmt) {
        Ok(d) => Some(UtcTimestamp { secs: d.and_utc().timestamp(), nanos: d.and_utc().timestamp_subsec_nanos() }),
        Err(_) => None,
    }
}

/// `std::time::SystemTime::now()` measured against `UNIX_EPOCH`
/// (`SystemTime::duration_since`): `Ok` with the whole seconds and the
/// nanoseconds after the epoch, or `Err` with those before it when the clock
/// reads earlier. The contract claims only what holds of every reading: the
/// nanoseconds (`Duration::subsec_nanos`) are below one billion.
#[verifier::external_body]
fn clock_since_epoch() -> (r: Result<(u64, u32), (u64, u32)>)
    ensures
        match r {
            Ok((_, nanos)) => nanos < 1_000_000_000,
            Err((_, nanos)) => nanos < 1_000_000_000,
        },
{
    match std::time::SystemTime::now().duration_since(std::time::UNIX_EPOCH) {
        Ok(d) => Ok((d.as_secs(), d.subsec_nanos())),
        Err(e) => Err((e.duration().as_secs(), e.duration().subsec_nanos())),
    }
}

/// The current time in UTC. It does not fail: a clock before the epoch gives
/// a negative number of seconds, and a reading beyond what `i64` seconds hold
/// is clamped to the nearest end.
fn utc_now() -> (r: UtcTimestamp)
    ensures
        r.nanos < 1_000_000_000,
{
    match clock_since_epoch() {
        Ok((secs, nanos)) => {
            if secs <= 0x7FFF_FFFF_FFFF_FFFFu64 {
                UtcTimestamp { secs: secs as i64, nanos }
            } else {
                UtcTimestamp { secs: i64::MAX, nanos }
            }
        },
        Err((secs, nanos)) => {
            if secs > 0x7FFF_FFFF_FFFF_FFFFu64 {
                UtcTimestamp { secs: i64::MIN, nanos: 0 }
            } else if nanos == 0 {
                UtcTimestamp { secs: -(secs as i64), nanos: 0 }
            } else {
                UtcTimestamp { secs: -(secs as i64) - 1, nanos: 1_000_000_000 - nanos }
            }
        },
    }
}

/// A lightweight Archive.org catalog task model.
#[derive(Debug, Clone)]
pub struct CatalogTask {
    pub data: StrMap<JsonValue>,
}

/// A line with one trailing carriage return removed.
pub open spec fn strip_cr(l: Seq<char>) -> Seq<char> {
    if l.len() > 0 && l.last() == '\r' {
        l.drop_last()
    } else {
        l
    }
}

/// The lines of `t` as `str::lines` yields them: split at `\n`, a `\r`
/// before a `\n` dropped, no empty line after a final `\n`.
pub open spec fn text_lines(t: Seq<char>) -> Seq<Seq<char>> {
    let pieces = split_char(t, '\n');
    let terminated = pieces.take(pieces.len() - 1).map_values(|l: Seq<char>| strip_cr(l));
    if pieces.last().len() > 0 {
        terminated.push(pieces.last())
    } else {
        terminated
    }
}

/// Lines joined with `\n` between them.
pub open spec fn join_lines(ls: Seq<Seq<char>>) -> Seq<char>
    decreases ls.len(),
{
    if ls.len() == 0 {
        Seq::empty()
    } else if ls.len() == 1 {
        ls[0]
    } else {
        join_lines(ls.drop_last()) + seq!['\n'] + ls.last()
    }
}

/// The log text selected by `lines`: all of it for `None`; for `Some(n)` with
/// `n < 0` the last `|n|` lines (all of the text when it has no more lines
/// than that), keeping a final newline; nothing for `n >= 0`.
pub open spec fn select_log_lines_spec(t: Seq<char>, lines: Option<i64>) -> Seq<char> {
    match lines {
        None => t,
        Some(n) => if n < 0 {
            let ls = text_lines(t);
            let keep = (-(n as int)) as usize as int;
            if keep >= ls.len() {
                t
            } else {
                join_lines(ls.subrange(ls.len() - keep, ls.len() as int)) + if t.len() > 0 && t.last()
                    == '\n' {
                    seq!['\n']
                } else {
                    Seq::empty()
                }
            }
        } else {
            Seq::empty()
        },
    }
}

fn text_lines_exec(text: &str) -> (r: Vec<String>)
    ensures
        r@.map_values(|l: String| l@) == text_lines(text@),
{
    let pieces = split_at_char(text, '\n');
    let ghost ps = split_char(text@, '\n');
    proof {
        lemma_split_char_nonempty(text@, '\n');
    }
    let n = pieces.len() - 1;
    let mut out: Vec<String> = Vec::new();
    let mut i: usize = 0;
    while i < n
        invariant
            i <= n,
            n == pieces@.len() - 1,
            ps == pieces@.map_values(|l: String| l@),
            out@.map_values(|l: String| l@) == ps.take(i as int).map_values(|l: Seq<char>| strip_cr(l)),
        decreases n - i,
    {
        let p = pieces[i].as_str();
        let len = p.unicode_len();
        let line = if len > 0 && p.get_char(len - 1) == '\r' {
            p.substring_char(0, len - 1).to_owned()
        } else {
            p.to_owned()
        };
        proof {
            assert(p@ == ps[i as int]);
            if len > 0 && p@[len - 1] == '\r' {
                assert(p@.subrange(0, len - 1) =~= p@.drop_last());
            }
        }
        let ghost prev = out@;
        out.push(line);
        assert(out@.map_values(|l: String| l@) =~= prev.map_values(|l: String| l@).push(line@));
        assert(ps.take(i + 1).map_values(|l: Seq<char>| strip_cr(l)) =~= ps.take(i as int).map_values(
            |l: Seq<char>| strip_cr(l),
        ).push(strip_cr(ps[i as int])));
        i = i + 1;
    }
    let last = pieces[n].as_str();
    assert(last@ == ps.last());
    if last.unicode_len() > 0 {
        let ghost prev = out@;
        let l = last.to_owned();
        out.push(l);
        assert(out@.map_values(|l: String| l@) =~= prev.map_values(|l: String| l@).push(l@));
    }
    out
}

fn join_lines_exec(ls: &Vec<String>, start: usize) -> (r: String)
    requires
        start <= ls@.len(),
    ensures
        r@ == join_lines(ls@.map_values(|l: String| l@).subrange(start as int, ls@.len() as int)),
{
    let ghost v = ls@.map_values(|l: String| l@);
    let mut out = String::new();
    let mut i: usize = start;
    while i < ls.len()
        invariant
            start <= i <= ls@.len(),
            v == ls@.map_values(|l: String| l@),
            out@ == join_lines(v.subrange(start as int, i as int)),
        decreases ls@.len() - i,
    {
        let ghost before = out@;
        if i > start {
            push_char(&mut out, '\n');
        }
        push_str(&mut out, ls[i].as_str());
        proof {
            let s = v.subrange(start as int, i + 1);
            assert(s.drop_last() =~= v.subrange(start as int, i as int));
            if i == start {
                assert(out@ =~= s[0]);
            } else {
                assert(out@ =~= before + seq!['\n'] + s.last());
            }
        }
        i = i + 1;
    }
    out
}

fn ends_with_newline(t: &str) -> (r: bool)
    ensures
        r == (t@.len() > 0 && t@.last() == '\n'),
{
    let n = t.unicode_len();
    n > 0 && t.get_char(n - 1) == '\n'
}

/// The text of a JSON string member of an object.
pub open spec fn str_member(es: Seq<(Seq<char>, Json)>, key: Seq<char>) -> Option<Seq<char>> {
    match model_get(es, key) {
        Some(Json::Str(s)) => Some(s),
        _ => None,
    }
}

impl CatalogTask {
    /// Construct a task from Archive.org JSON: a task for an object, `None`
    /// for any other value.
    pub fn from_json(value: &JsonValue) -> (r: Option<Self>)
        ensures
            match value@ {
                Json::Obj(es) => r matches Some(t) && obj_view(t.data) == es,
                _ => r is None,
            },
    {
        match value.as_object() {
            Some(m) => Some(CatalogTask { data: duplicate_map(m) }),
            None => None,
        }
    }

    /// Return the task identifier: the `task_id` member when it is a
    /// non-negative integer.
    pub fn task_id(&self) -> (r: Option<u64>)
        ensures
            r == match model_get(obj_view(self.data), "task_id"@) {
                Some(Json::Num(Num::PosInt(u))) => Some(u),
                _ => None,
            },
    {
        match model_get_json(&self.data, "task_id") {
            Some(v) => v.as_u64(),
            None => None,
        }
    }

    fn str_field<'a>(&'a self, key: &str) -> (r: Option<&'a str>)
        ensures
            match str_member(obj_view(self.data), key@) {
                Some(s) => r matches Some(t) && t@ == s,
                None => r is None,
            },
    {
        match model_get_json(&self.data, key) {
            Some(v) => v.as_str(),
            None => None,
        }
    }

    /// Return the task category.
    pub fn category(&self) -> (r: Option<&str>)
        ensures
            match str_member(obj_view(self.data), "category"@) {
                Some(s) => r matches Some(t) && t@ == s,
                None => r is None,
            },
    {
        self.str_field("category")
    }

    /// Return the task status.
    pub fn status(&self) -> (r: Option<&str>)
        ensures
            match str_member(obj_view(self.data), "status"@) {
                Some(s) => r matches Some(t) && t@ == s,
                None => r is None,
            },
    {
        self.str_field("status")
    }

    /// Return the task submission time.
    pub fn submittime(&self) -> (r: Option<&str>)
        ensures
            match str_member(obj_view(self.data), "submittime"@) {
                Some(s) => r matches Some(t) && t@ == s,
                None => r is None,
            },
    {
        self.str_field("submittime")
    }

    /// Return true if the task is still active.
    pub fn is_active(&self) -> (r: bool)
        ensures
            r == (str_member(obj_view(self.data), "status"@) matches Some(s) && is_active_status(s)),
    {
        task_is_active(self.status())
    }

    /// Select log lines: the whole text for `None`, the last `|n|` lines for
    /// a negative `n`, and nothing otherwise.
    pub fn select_log_lines(text: &str, lines: Option<i64>) -> (r: String)
        ensures
            r@ == select_log_lines_spec(text@, lines),
    {
        match lines {
            None => to_string(text),
            Some(n) => {
                if n < 0 {
                    let split = text_lines_exec(text);
                    let abs: u64 = if n == i64::MIN {
                        0x8000_0000_0000_0000u64
                    } else {
                        (-n) as u64
                    };
                    let keep: usize = #[verifier::truncate] (abs as usize);
                    assert(keep == (-(n as int)) as usize);
                    if keep >= split.len() {
                        return to_string(text);
                    }
                    let start = split.len() - keep;
                    let mut joined = join_lines_exec(&split, start);
                    if ends_with_newline(text) {
                        push_char(&mut joined, '\n');
                    }
                    joined
                } else {
                    String::new()
                }
            },
        }
    }

    /// The time the task was submitted, for sorting tasks by submission:
    /// `submittime` (1970-01-01 00:00:00 when missing) read as
    /// `%Y-%m-%d %H:%M:%S.%f`, else as `%Y-%m-%d %H:%M:%S`, else the current
    /// time (read without failing, see `utc_now`).
    pub fn sort_key(&self) -> (r: UtcTimestamp)
        ensures
            ({
                let t = match str_member(obj_view(self.data), "submittime"@) {
                    Some(s) => s,
                    None => "1970-01-01 00:00:00"@,
                };
                match naive_utc_parse(t, "%Y-%m-%d %H:%M:%S.%f"@) {
                    Some((secs, nanos)) => r == UtcTimestamp { secs, nanos },
                    None => match naive_utc_parse(t, "%Y-%m-%d %H:%M:%S"@) {
                        Some((secs, nanos)) => r == UtcTimestamp { secs, nanos },
                        None => r.nanos < 1_000_000_000,
                    },
                }
            }),
    {
        let submittime = match self.submittime() {
            Some(s) => s,
            None => "1970-01-01 00:00:00",
        };
        match parse_naive_utc(submittime, "%Y-%m-%d %H:%M:%S.%f") {
            Some(t) => t,
            None => match parse_naive_utc(submittime, "%Y-%m-%d %H:%M:%S") {
                Some(t) => t,
                None => utc_now(),
            },
        }
    }
}

} // verus!

verus! {

/// `s` holds no `c`.
pub open spec fn free_of_char(s: Seq<char>, c: char) -> bool {
    forall|i: int| 0 <= i < s.len() ==> s[i] != c
}

proof fn lemma_split_pieces_free(s: Seq<char>, c: char)
    ensures
        forall|i: int| 0 <= i < split_char(s, c).len() ==> free_of_char(#[trigger] split_char(s, c)[i], c),
    decreases s.len(),
{
    lemma_split_char_nonempty(s, c);
    if s.len() > 0 {
        lemma_split_pieces_free(s.drop_last(), c);
        lemma_split_char_nonempty(s.drop_last(), c);
        let prev = split_char(s.drop_last(), c);
        assert forall|i: int| 0 <= i < split_char(s, c).len() implies free_of_char(
            #[trigger] split_char(s, c)[i],
            c,
        ) by {
            if s.last() != c && i == prev.len() - 1 {
                assert(free_of_char(prev[i], c));
                assert(split_char(s, c)[i] == prev[i].push(s.last()));
            } else if i < prev.len() {
                assert(free_of_char(prev[i], c));
            }
        }
    }
}

proof fn lemma_lines_free(t: Seq<char>)
    ensures
        forall|i: int| 0 <= i < text_lines(t).len() ==> free_of_char(#[trigger] text_lines(t)[i], '\n'),
{
    lemma_split_pieces_free(t, '\n');
    lemma_split_char_nonempty(t, '\n');
    let pieces = split_char(t, '\n');
    assert forall|i: int| 0 <= i < text_lines(t).len() implies free_of_char(#[trigger] text_lines(t)[i], '\n') by {
        if i < pieces.len() - 1 {
            assert(free_of_char(pieces[i], '\n'));
            assert(text_lines(t)[i] == strip_cr(pieces[i]));
        } else {
            assert(text_lines(t)[i] == pieces.last());
        }
    }
}

proof fn lemma_split_append(x: Seq<char>, y: Seq<char>, c: char)
    requires
        free_of_char(y, c),
    ensures
        split_char(x + y, c) == split_char(x, c).update(
            split_char(x, c).len() - 1,
            split_char(x, c).last() + y,
        ),
    decreases y.len(),
{
    lemma_split_char_nonempty(x, c);
    let sx = split_char(x, c);
    if y.len() == 0 {
        assert(x + y =~= x);
        assert(sx.update(sx.len() - 1, sx.last() + y) =~= sx);
    } else {
        let yi = y.drop_last();
        assert((x + y).drop_last() =~= x + yi);
        assert((x + y).last() == y.last());
        lemma_split_append(x, yi, c);
        assert(y[y.len() - 1] != c);
        let prev = split_char(x + yi, c);
        assert(prev == sx.update(sx.len() - 1, sx.last() + yi));
        assert(prev.len() == sx.len());
        assert(prev.last() == sx.last() + yi);
        assert(split_char(x + y, c) == prev.update(prev.len() - 1, prev.last().push(y.last())));
        assert((sx.last() + yi).push(y.last()) =~= sx.last() + y);
        assert(split_char(x + y, c) =~= sx.update(sx.len() - 1, sx.last() + y));
    }
}

proof fn lemma_split_join_lines(ls: Seq<Seq<char>>)
    requires
        ls.len() >= 1,
        forall|i: int| 0 <= i < ls.len() ==> free_of_char(#[trigger] ls[i], '\n'),
    ensures
        split_char(join_lines(ls), '\n') == ls,
    decreases ls.len(),
{
    let e = Seq::<char>::empty();
    if ls.len() == 1 {
        lemma_split_append(e, ls[0], '\n');
        assert(e + ls[0] =~= ls[0]);
        assert(split_char(e, '\n') =~= seq![e]);
        assert(seq![e].update(0, e + ls[0]) =~= ls);
    } else {
        let init = ls.drop_last();
        assert forall|i: int| 0 <= i < init.len() implies free_of_char(#[trigger] init[i], '\n') by {
            assert(init[i] == ls[i]);
        }
        lemma_split_join_lines(init);
        let j = join_lines(init) + seq!['\n'];
        assert(j.drop_last() =~= join_lines(init));
        assert(split_char(j, '\n') == init.push(e));
        assert(free_of_char(ls[ls.len() - 1], '\n'));
        lemma_split_append(j, ls.last(), '\n');
        assert(init.push(e).update(init.len() as int, e + ls.last()) =~= ls);
        assert(join_lines(ls) == j + ls.last());
    }
}

/// Selecting log lines a second time with the same `lines` changes nothing.
pub proof fn law_select_log_lines_idempotent(t: Seq<char>, lines: Option<i64>)
    ensures
        select_log_lines_spec(select_log_lines_spec(t, lines), lines) == select_log_lines_spec(t, lines),
{
    if let Some(n) = lines {
        if n < 0 {
            let ls = text_lines(t);
            let keep = (-(n as int)) as usize as int;
            if keep < ls.len() {
                let sel = ls.subrange(ls.len() - keep, ls.len() as int);
                let nl = t.len() > 0 && t.last() == '\n';
                let r = select_log_lines_spec(t, lines);
                lemma_lines_free(t);
                if keep == 0 {
                    assert(sel =~= Seq::<Seq<char>>::empty());
                    if nl {
                        assert(r =~= seq!['\n']);
                        let e = Seq::<char>::empty();
                        assert(r.drop_last() =~= e);
                        assert(r.len() == 1 && r.last() == '\n');
                        assert(split_char(e, '\n') == seq![e]);
                        assert(split_char(r, '\n') == split_char(r.drop_last(), '\n').push(e));
                        assert(split_char(r, '\n') == seq![e].push(e));
                        assert(text_lines(r).len() == 1);
                        let ls2 = text_lines(r);
                        assert(ls2.subrange(1, 1) =~= Seq::<Seq<char>>::empty());
                    } else {
                        assert(r =~= Seq::<char>::empty());
                        assert(text_lines(r).len() == 0);
                    }
                } else {
                    assert forall|i: int| 0 <= i < sel.len() implies free_of_char(#[trigger] sel[i], '\n') by {
                        assert(sel[i] == ls[ls.len() - keep + i]);
                    }
                    lemma_split_join_lines(sel);
                    if nl {
                        let j = join_lines(sel) + seq!['\n'];
                        assert(r == j);
                        assert(j.drop_last() =~= join_lines(sel));
                        assert(split_char(r, '\n') == sel.push(Seq::<char>::empty()));
                        assert(text_lines(r).len() == keep);
                    } else {
                        assert(r =~= join_lines(sel));
                        assert(text_lines(r).len() <= keep);
                    }
                }
            }
        }
    }
}

} // verus!
