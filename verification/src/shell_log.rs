//! Shell-log ingestion: the record shape of the external append-only log,
//! its conversion to actions, and the duplicate-free merge with a stable
//! sort by timestamp. Merging the same records twice adds nothing.

use crate::ext::{parse_rfc3339_millis, rfc3339_millis};
use crate::text::{split_sep, trim_spec};
use crate::model::{Action, ActionResult, ActionV};
use crate::ts_in_range;
use vstd::pervasive::VecAdditionalExecFns;
use vstd::prelude::*;
use vstd::string::StringExecFns;

verus! {

/// One parsed line of the external shell log.
pub struct LogRecord {
    pub time: String,
    pub cmd: String,
    pub result: Option<String>,
    pub output: Option<String>,
    pub auto: Option<bool>,
}

pub ghost struct LogRecordV {
    pub time: Seq<char>,
    pub cmd: Seq<char>,
    pub result: Option<Seq<char>>,
    pub output: Option<Seq<char>>,
    pub auto: Option<bool>,
}

impl View for LogRecord {
    type V = LogRecordV;

    open spec fn view(&self) -> LogRecordV {
        LogRecordV {
            time: self.time@,
            cmd: self.cmd@,
            result: match self.result {
                Some(s) => Some(s@),
                None => None,
            },
            output: match self.output {
                Some(s) => Some(s@),
                None => None,
            },
            auto: self.auto,
        }
    }
}

/// What one shell-log line parses to, `None` for anything that is not a
/// record; the result depends on the characters of the line alone.
pub uninterp spec fn log_record_of(line: Seq<char>) -> Option<LogRecordV>;

/// Relies on serde_json's `from_str`, `Value::get`, `Value::as_str`,
/// `Value::as_bool` and `Value::is_null`: a line parses exactly when it
/// is a JSON object carrying string `time` and `cmd`, a `box_id` field,
/// and optional-or-null `result`/`output` strings and `auto` boolean.
/// All five are deterministic functions of the line alone.
#[verifier::external_body]
pub fn parse_log_record(line: &str) -> (r: Option<LogRecord>)
    ensures
        log_record_of(line@) == (match r {
            Some(rec) => Some(rec@),
            None => None::<LogRecordV>,
        }),
{
    let v: serde_json::Value = serde_json::from_str(line).ok()?;
    let time = v.get("time")?.as_str()?.to_owned();
    v.get("box_id")?;
    let cmd = v.get("cmd")?.as_str()?.to_owned();
    let result = match v.get("result") { Some(f) if !f.is_null() => Some(f.as_str()?.to_owned()), _ => None };
    let output = match v.get("output") { Some(f) if !f.is_null() => Some(f.as_str()?.to_owned()), _ => None };
    let auto = match v.get("auto") { Some(f) if !f.is_null() => Some(f.as_bool()?), _ => None };
    Some(LogRecord { time, cmd, result, output, auto })
}

/// The timestamp a record carries: its time string where it is a valid
/// in-range RFC 3339 moment, the fallback `now` otherwise.
pub open spec fn ts_of_record(time: Seq<char>, now: i64) -> i64 {
    match rfc3339_millis(time) {
        Some(t) => if ts_in_range(t) {
            t
        } else {
            now
        },
        None => now,
    }
}

/// The outcome a record's tag denotes.
pub open spec fn result_of_tag(tag: Option<Seq<char>>) -> ActionResult {
    match tag {
        Some(s) => if s == "success"@ {
            ActionResult::Success
        } else if s == "fail"@ {
            ActionResult::Fail
        } else {
            ActionResult::Unknown
        },
        None => ActionResult::Unknown,
    }
}

/// The action a surviving record becomes; `None` for an auto-logged
/// record without captured output, which is a duplicate prompt echo.
pub open spec fn convert_spec(rec: LogRecordV, now: i64) -> Option<ActionV> {
    if rec.auto == Some(true) && rec.output is None {
        None
    } else {
        Some(
            ActionV {
                timestamp: ts_of_record(rec.time, now),
                command: rec.cmd,
                result: result_of_tag(rec.result),
                note: None,
                output: rec.output,
            },
        )
    }
}

/// Turn a parsed record into an action, or drop it as a prompt echo.
pub fn convert_record(rec: LogRecord, now: i64) -> (r: Option<Action>)
    requires
        ts_in_range(now),
    ensures
        (match r {
            Some(a) => convert_spec(rec@, now) == Some(a@) && ts_in_range(a@.timestamp),
            None => convert_spec(rec@, now) is None,
        }),
{
    let auto_skip = match rec.auto {
        Some(b) => b && rec.output.is_none(),
        None => false,
    };
    if auto_skip {
        return None;
    }
    let ts = match parse_rfc3339_millis(rec.time.as_str()) {
        Some(t) => {
            if 0 <= t && t <= crate::MAX_TS_MS {
                t
            } else {
                now
            }
        },
        None => now,
    };
    let result = match &rec.result {
        Some(s) => {
            if s.eq(&String::from_str("success")) {
                ActionResult::Success
            } else if s.eq(&String::from_str("fail")) {
                ActionResult::Fail
            } else {
                ActionResult::Unknown
            }
        },
        None => ActionResult::Unknown,
    };
    Some(Action { timestamp: ts, command: rec.cmd, result, note: None, output: rec.output })
}

/// The actions one log line contributes: none when the line is blank,
/// fails to parse, or is an auto-logged echo without captured output.
pub open spec fn line_actions(line: Seq<char>, now: i64) -> Seq<ActionV> {
    if trim_spec(line).len() == 0 {
        Seq::empty()
    } else {
        match log_record_of(line) {
            None => Seq::empty(),
            Some(rec) => match convert_spec(rec, now) {
                None => Seq::empty(),
                Some(a) => seq![a],
            },
        }
    }
}

/// The surviving actions of a sequence of log lines, in line order.
pub open spec fn records_of_lines(lines: Seq<Seq<char>>, now: i64) -> Seq<ActionV>
    decreases lines.len(),
{
    if lines.len() == 0 {
        Seq::empty()
    } else {
        records_of_lines(lines.drop_last(), now) + line_actions(lines.last(), now)
    }
}

/// The surviving actions parsed from newline-delimited log text, with
/// `now` as the fallback timestamp of records whose time does not parse.
pub open spec fn records_of(text: Seq<char>, now: i64) -> Seq<ActionV> {
    records_of_lines(split_sep(text, '\u{000A}'), now)
}

/// Every action a log yields carries an in-range timestamp.
pub proof fn lemma_records_of_lines_wf(lines: Seq<Seq<char>>, now: i64)
    requires
        ts_in_range(now),
    ensures
        forall|k: int|
            0 <= k < records_of_lines(lines, now).len() ==> ts_in_range(
                (#[trigger] records_of_lines(lines, now)[k]).timestamp,
            ),
    decreases lines.len(),
{
    if lines.len() > 0 {
        lemma_records_of_lines_wf(lines.drop_last(), now);
    }
}

/// Is an action with this timestamp and command already present?
pub open spec fn has_ts_cmd(acts: Seq<ActionV>, ts: i64, cmd: Seq<char>) -> bool {
    exists|i: int|
        0 <= i < acts.len() && (#[trigger] acts[i]).timestamp == ts && acts[i].command == cmd
}

/// One merge step: append the action unless its timestamp and command
/// are already present.
pub open spec fn merge_step(acts: Seq<ActionV>, a: ActionV) -> Seq<ActionV> {
    if has_ts_cmd(acts, a.timestamp, a.command) {
        acts
    } else {
        acts.push(a)
    }
}

/// Merge incoming actions in order, dropping those whose timestamp and
/// command are already known.
pub open spec fn merge_spec(acts: Seq<ActionV>, incoming: Seq<ActionV>) -> Seq<ActionV>
    decreases incoming.len(),
{
    if incoming.len() == 0 {
        acts
    } else {
        merge_spec(merge_step(acts, incoming[0]), incoming.subrange(1, incoming.len() as int))
    }
}

fn exists_ts_cmd(acts: &Vec<Action>, ts: i64, cmd: &String) -> (r: bool)
    ensures
        r == has_ts_cmd(acts@.map_values(|a: Action| a@), ts, cmd@),
{
    let ghost av = acts@.map_values(|a: Action| a@);
    let mut i: usize = 0;
    while i < acts.len()
        invariant
            0 <= i <= acts@.len(),
            av == acts@.map_values(|a: Action| a@),
            forall|k: int|
                0 <= k < i ==> !((#[trigger] av[k]).timestamp == ts && av[k].command == cmd@),
        decreases acts@.len() - i,
    {
        if acts[i].timestamp == ts && acts[i].command.eq(cmd) {
            proof {
                assert(av[i as int].timestamp == ts && av[i as int].command == cmd@);
            }
            return true;
        }
        i = i + 1;
    }
    false
}

/// Merge incoming actions into `acts`, dropping duplicates keyed on the
/// pair (timestamp, command); returns how many were appended.
pub fn merge_actions(acts: &mut Vec<Action>, incoming: Vec<Action>) -> (added: usize)
    ensures
        final(acts)@.map_values(|a: Action| a@) == merge_spec(
            old(acts)@.map_values(|a: Action| a@),
            incoming@.map_values(|a: Action| a@),
        ),
        final(acts)@.len() == old(acts)@.len() + added,
{
    let ghost iv = incoming@.map_values(|a: Action| a@);
    let ghost start = old(acts)@.map_values(|a: Action| a@);
    let mut added: usize = 0;
    let mut i: usize = 0;
    proof {
        assert(iv.subrange(0, iv.len() as int) =~= iv);
    }
    let n = incoming.len();
    let mut rest = incoming;
    while i < n
        invariant
            0 <= i <= n,
            n == iv.len(),
            rest@.len() == n,
            forall|k: int| i <= k < n ==> #[trigger] rest@[k]@ == iv[k],
            merge_spec(start, iv) == merge_spec(
                acts@.map_values(|a: Action| a@),
                iv.subrange(i as int, iv.len() as int),
            ),
            acts@.len() == old(acts)@.len() + added,
            added <= i,
        decreases n - i,
    {
        let ghost cur = acts@.map_values(|a: Action| a@);
        let ghost tail = iv.subrange(i as int, iv.len() as int);
        let mut a = Action {
            timestamp: 0,
            command: String::new(),
            result: ActionResult::Unknown,
            note: None,
            output: None,
        };
        rest.set_and_swap(i, &mut a);
        proof {
            assert(a@ == iv[i as int]);
            assert(tail[0] == iv[i as int]);
            assert(tail.subrange(1, tail.len() as int) =~= iv.subrange(i + 1, iv.len() as int));
        }
        let present = exists_ts_cmd(acts, a.timestamp, &a.command);
        if !present {
            acts.push(a);
            added = added + 1;
            proof {
                assert(acts@.map_values(|x: Action| x@) =~= cur.push(iv[i as int]));
                assert(merge_step(cur, iv[i as int]) == cur.push(iv[i as int]));
            }
        } else {
            proof {
                assert(merge_step(cur, iv[i as int]) == cur);
            }
        }
        i = i + 1;
    }
    proof {
        assert(iv.subrange(iv.len() as int, iv.len() as int) =~= Seq::<ActionV>::empty());
    }
    added
}

/// Ascending timestamp order.
pub open spec fn sorted_by_ts(s: Seq<ActionV>) -> bool {
    forall|i: int, j: int| 0 <= i < j < s.len() ==> s[i].timestamp <= s[j].timestamp
}

/// Insert an action after every element whose timestamp is not larger,
/// keeping the order of equals.
pub open spec fn insert_sorted(s: Seq<ActionV>, a: ActionV) -> Seq<ActionV>
    decreases s.len(),
{
    if s.len() == 0 {
        seq![a]
    } else if s[0].timestamp <= a.timestamp {
        seq![s[0]] + insert_sorted(s.subrange(1, s.len() as int), a)
    } else {
        seq![a] + s
    }
}

/// The stable ascending-by-timestamp ordering of `s`.
pub open spec fn stable_sort(s: Seq<ActionV>) -> Seq<ActionV>
    decreases s.len(),
{
    if s.len() == 0 {
        Seq::empty()
    } else {
        insert_sorted(stable_sort(s.drop_last()), s.last())
    }
}

proof fn lemma_insert_sorted_at(s: Seq<ActionV>, a: ActionV, p: int)
    requires
        0 <= p <= s.len(),
        forall|k: int| 0 <= k < p ==> (#[trigger] s[k]).timestamp <= a.timestamp,
        p < s.len() ==> s[p].timestamp > a.timestamp,
    ensures
        insert_sorted(s, a) == s.subrange(0, p) + seq![a] + s.subrange(p, s.len() as int),
    decreases p,
{
    if s.len() == 0 {
        assert(insert_sorted(s, a) =~= s.subrange(0, p) + seq![a] + s.subrange(
            p,
            s.len() as int,
        ));
    } else if p == 0 {
        assert(insert_sorted(s, a) =~= s.subrange(0, 0) + seq![a] + s.subrange(0, s.len() as int));
    } else {
        let s1 = s.subrange(1, s.len() as int);
        lemma_insert_sorted_at(s1, a, p - 1);
        assert(s1.subrange(0, p - 1) =~= s.subrange(1, p));
        assert(s1.subrange(p - 1, s1.len() as int) =~= s.subrange(p, s.len() as int));
        assert(seq![s[0]] + (s.subrange(1, p) + seq![a] + s.subrange(p, s.len() as int)) =~= s
            .subrange(0, p) + seq![a] + s.subrange(p, s.len() as int));
    }
}

proof fn lemma_insert_sorted_sorted(s: Seq<ActionV>, a: ActionV)
    requires
        sorted_by_ts(s),
    ensures
        sorted_by_ts(insert_sorted(s, a)),
        insert_sorted(s, a).len() == s.len() + 1,
    decreases s.len(),
{
    if s.len() > 0 && s[0].timestamp <= a.timestamp {
        let s1 = s.subrange(1, s.len() as int);
        lemma_insert_sorted_sorted(s1, a);
        let r = seq![s[0]] + insert_sorted(s1, a);
        assert forall|i: int, j: int| 0 <= i < j < r.len() implies r[i].timestamp
            <= r[j].timestamp by {
            if i == 0 {
                if j - 1 < s1.len() && insert_sorted(s1, a)[j - 1] == a {
                } else {
                }
                lemma_insert_sorted_members(s1, a, j - 1);
            } else {
                assert(r[i] == insert_sorted(s1, a)[i - 1]);
                assert(r[j] == insert_sorted(s1, a)[j - 1]);
            }
        }
    }
}

/// Every element of the inserted sequence is the new action or one of
/// the old elements.
proof fn lemma_insert_sorted_members(s: Seq<ActionV>, a: ActionV, i: int)
    requires
        0 <= i < insert_sorted(s, a).len(),
    ensures
        insert_sorted(s, a)[i] == a || exists|k: int|
            0 <= k < s.len() && #[trigger] s[k] == insert_sorted(s, a)[i],
    decreases s.len(),
{
    if s.len() == 0 {
    } else if s[0].timestamp <= a.timestamp {
        if i > 0 {
            let s1 = s.subrange(1, s.len() as int);
            lemma_insert_sorted_members(s1, a, i - 1);
            if insert_sorted(s1, a)[i - 1] != a {
                let k = choose|k: int| 0 <= k < s1.len() && #[trigger] s1[k] == insert_sorted(
                    s1,
                    a,
                )[i - 1];
                assert(s[k + 1] == insert_sorted(s, a)[i]);
            }
        } else {
            assert(s[0] == insert_sorted(s, a)[0]);
        }
    } else {
        if i > 0 {
            assert(s[i - 1] == insert_sorted(s, a)[i]);
        }
    }
}

/// The stable sort of any sequence is sorted.
pub proof fn lemma_stable_sort_sorted(s: Seq<ActionV>)
    ensures
        sorted_by_ts(stable_sort(s)),
        stable_sort(s).len() == s.len(),
    decreases s.len(),
{
    if s.len() > 0 {
        lemma_stable_sort_sorted(s.drop_last());
        lemma_insert_sorted_sorted(stable_sort(s.drop_last()), s.last());
    }
}

proof fn lemma_insert_sorted_at_end(s: Seq<ActionV>, a: ActionV)
    requires
        forall|k: int| 0 <= k < s.len() ==> (#[trigger] s[k]).timestamp <= a.timestamp,
    ensures
        insert_sorted(s, a) == s.push(a),
    decreases s.len(),
{
    if s.len() == 0 {
        assert(insert_sorted(s, a) =~= s.push(a));
    } else {
        let s1 = s.subrange(1, s.len() as int);
        lemma_insert_sorted_at_end(s1, a);
        assert(seq![s[0]] + s1.push(a) =~= s.push(a));
    }
}

/// A sequence already in ascending order sorts to itself.
pub proof fn lemma_stable_sort_of_sorted(s: Seq<ActionV>)
    requires
        sorted_by_ts(s),
    ensures
        stable_sort(s) == s,
    decreases s.len(),
{
    if s.len() > 0 {
        let pre = s.drop_last();
        assert(sorted_by_ts(pre)) by {
            assert(forall|i: int| 0 <= i < pre.len() ==> pre[i] == s[i]);
        }
        lemma_stable_sort_of_sorted(pre);
        assert(forall|k: int| 0 <= k < pre.len() ==> (#[trigger] pre[k]).timestamp
            <= s.last().timestamp);
        lemma_insert_sorted_at_end(pre, s.last());
        assert(pre.push(s.last()) =~= s);
    }
}

/// Sort actions by timestamp, keeping the order of equal timestamps.
pub fn sort_actions(acts: &mut Vec<Action>) -> (r: ())
    ensures
        final(acts)@.map_values(|a: Action| a@) == stable_sort(
            old(acts)@.map_values(|a: Action| a@),
        ),
{
    let ghost input = old(acts)@.map_values(|a: Action| a@);
    let n = acts.len();
    let mut out: Vec<Action> = Vec::new();
    let mut i: usize = 0;
    proof {
        assert(input.subrange(0, 0) =~= Seq::<ActionV>::empty());
        assert(stable_sort(input.subrange(0, 0)) =~= Seq::<ActionV>::empty());
        assert(out@.map_values(|a: Action| a@) =~= Seq::<ActionV>::empty());
    }
    while i < n
        invariant
            0 <= i <= n,
            n == input.len(),
            acts@.len() == n,
            forall|k: int| i <= k < n ==> #[trigger] acts@[k]@ == input[k],
            out@.map_values(|a: Action| a@) == stable_sort(input.subrange(0, i as int)),
            out@.len() == i,
        decreases n - i,
    {
        let ghost cur = out@.map_values(|a: Action| a@);
        let mut a = Action {
            timestamp: 0,
            command: String::new(),
            result: ActionResult::Unknown,
            note: None,
            output: None,
        };
        acts.set_and_swap(i, &mut a);
        proof {
            assert(a@ == input[i as int]);
        }
        let ts = a.timestamp;
        let mut p: usize = 0;
        while p < out.len() && out[p].timestamp <= ts
            invariant
                0 <= p <= out@.len(),
                cur == out@.map_values(|x: Action| x@),
                forall|k: int| 0 <= k < p ==> (#[trigger] cur[k]).timestamp <= ts,
            decreases out@.len() - p,
        {
            proof {
                assert(cur[p as int].timestamp == out@[p as int]@.timestamp);
            }
            p = p + 1;
        }
        proof {
            if (p as int) < cur.len() {
                assert(cur[p as int].timestamp == out@[p as int]@.timestamp);
            }
            lemma_insert_sorted_at(cur, input[i as int], p as int);
        }
        out.insert(p, a);
        proof {
            let pre = input.subrange(0, i + 1);
            assert(pre.drop_last() =~= input.subrange(0, i as int));
            assert(pre.last() == input[i as int]);
            assert(out@.map_values(|x: Action| x@) =~= cur.subrange(0, p as int) + seq![
                input[i as int],
            ] + cur.subrange(p as int, cur.len() as int));
        }
        i = i + 1;
    }
    *acts = out;
    proof {
        assert(input.subrange(0, n as int) =~= input);
    }
}

proof fn lemma_merge_spec_contains(acts: Seq<ActionV>, incoming: Seq<ActionV>)
    ensures
        forall|i: int|
            0 <= i < incoming.len() ==> has_ts_cmd(
                merge_spec(acts, incoming),
                (#[trigger] incoming[i]).timestamp,
                incoming[i].command,
            ),
    decreases incoming.len(),
{
    if incoming.len() > 0 {
        let tail = incoming.subrange(1, incoming.len() as int);
        let step = merge_step(acts, incoming[0]);
        lemma_merge_spec_contains(step, tail);
        lemma_merge_spec_extends(step, tail);
        assert(has_ts_cmd(step, incoming[0].timestamp, incoming[0].command)) by {
            if !has_ts_cmd(acts, incoming[0].timestamp, incoming[0].command) {
                assert(step == acts.push(incoming[0]));
                assert(step[acts.len() as int] == incoming[0]);
            }
        }
        assert forall|i: int| 0 <= i < incoming.len() implies has_ts_cmd(
            merge_spec(acts, incoming),
            (#[trigger] incoming[i]).timestamp,
            incoming[i].command,
        ) by {
            if i > 0 {
                assert(tail[i - 1] == incoming[i]);
            }
        }
    }
}

/// Merging only appends: whatever pair was present stays present.
proof fn lemma_merge_spec_extends(acts: Seq<ActionV>, incoming: Seq<ActionV>)
    ensures
        forall|ts: i64, cmd: Seq<char>|
            #[trigger] has_ts_cmd(acts, ts, cmd) ==> has_ts_cmd(merge_spec(acts, incoming), ts, cmd),
    decreases incoming.len(),
{
    if incoming.len() > 0 {
        let tail = incoming.subrange(1, incoming.len() as int);
        let step = merge_step(acts, incoming[0]);
        lemma_merge_spec_extends(step, tail);
        assert forall|ts: i64, cmd: Seq<char>| #[trigger] has_ts_cmd(acts, ts, cmd) implies
            has_ts_cmd(merge_spec(acts, incoming), ts, cmd) by {
            let w = choose|i: int|
                0 <= i < acts.len() && (#[trigger] acts[i]).timestamp == ts && acts[i].command
                    == cmd;
            assert(step[w] == acts[w]);
            assert(has_ts_cmd(step, ts, cmd));
        }
    }
}

proof fn lemma_merge_spec_noop(acts: Seq<ActionV>, incoming: Seq<ActionV>)
    requires
        forall|i: int|
            0 <= i < incoming.len() ==> has_ts_cmd(
                acts,
                (#[trigger] incoming[i]).timestamp,
                incoming[i].command,
            ),
    ensures
        merge_spec(acts, incoming) == acts,
    decreases incoming.len(),
{
    if incoming.len() > 0 {
        let tail = incoming.subrange(1, incoming.len() as int);
        assert(merge_step(acts, incoming[0]) == acts);
        assert(forall|i: int| 0 <= i < tail.len() ==> #[trigger] tail[i] == incoming[i + 1]);
        lemma_merge_spec_noop(acts, tail);
    }
}

/// Sorting keeps exactly the (timestamp, command) pairs.
proof fn lemma_sort_preserves_pairs(s: Seq<ActionV>)
    ensures
        forall|ts: i64, cmd: Seq<char>|
            has_ts_cmd(stable_sort(s), ts, cmd) == #[trigger] has_ts_cmd(s, ts, cmd),
    decreases s.len(),
{
    if s.len() > 0 {
        let pre = s.drop_last();
        lemma_sort_preserves_pairs(pre);
        let sorted_pre = stable_sort(pre);
        let a = s.last();
        assert forall|ts: i64, cmd: Seq<char>| has_ts_cmd(stable_sort(s), ts, cmd)
            == #[trigger] has_ts_cmd(s, ts, cmd) by {
            lemma_insert_pair_iff(sorted_pre, a, ts, cmd);
            assert(has_ts_cmd(s, ts, cmd) == (has_ts_cmd(pre, ts, cmd) || (a.timestamp == ts
                && a.command == cmd))) by {
                if has_ts_cmd(s, ts, cmd) {
                    let w = choose|i: int|
                        0 <= i < s.len() && (#[trigger] s[i]).timestamp == ts && s[i].command
                            == cmd;
                    if w < pre.len() {
                        assert(pre[w] == s[w]);
                        assert(has_ts_cmd(pre, ts, cmd));
                    }
                }
                if has_ts_cmd(pre, ts, cmd) {
                    let w = choose|i: int|
                        0 <= i < pre.len() && (#[trigger] pre[i]).timestamp == ts && pre[i].command
                            == cmd;
                    assert(s[w] == pre[w]);
                    assert(has_ts_cmd(s, ts, cmd));
                }
                if a.timestamp == ts && a.command == cmd {
                    assert(s[s.len() - 1] == a);
                    assert(has_ts_cmd(s, ts, cmd));
                }
            }
        }
    }
}

proof fn lemma_insert_pair_iff(s: Seq<ActionV>, a: ActionV, ts: i64, cmd: Seq<char>)
    ensures
        has_ts_cmd(insert_sorted(s, a), ts, cmd) == (has_ts_cmd(s, ts, cmd) || (a.timestamp == ts
            && a.command == cmd)),
    decreases s.len(),
{
    let r = insert_sorted(s, a);
    if s.len() == 0 {
        if a.timestamp == ts && a.command == cmd {
            assert(r[0] == a);
        }
        if has_ts_cmd(r, ts, cmd) {
            let w = choose|i: int|
                0 <= i < r.len() && (#[trigger] r[i]).timestamp == ts && r[i].command == cmd;
            assert(r[w] == a);
        }
    } else if s[0].timestamp <= a.timestamp {
        let s1 = s.subrange(1, s.len() as int);
        lemma_insert_pair_iff(s1, a, ts, cmd);
        let r1 = insert_sorted(s1, a);
        assert(r == seq![s[0]] + r1);
        assert(has_ts_cmd(r, ts, cmd) == ((s[0].timestamp == ts && s[0].command == cmd)
            || has_ts_cmd(r1, ts, cmd))) by {
            if has_ts_cmd(r, ts, cmd) {
                let w = choose|i: int|
                    0 <= i < r.len() && (#[trigger] r[i]).timestamp == ts && r[i].command == cmd;
                if w > 0 {
                    assert(r1[w - 1] == r[w]);
                    assert(has_ts_cmd(r1, ts, cmd));
                }
            }
            if has_ts_cmd(r1, ts, cmd) {
                let w = choose|i: int|
                    0 <= i < r1.len() && (#[trigger] r1[i]).timestamp == ts && r1[i].command
                        == cmd;
                assert(r[w + 1] == r1[w]);
                assert(has_ts_cmd(r, ts, cmd));
            }
            if s[0].timestamp == ts && s[0].command == cmd {
                assert(r[0] == s[0]);
            }
        }
        assert(has_ts_cmd(s, ts, cmd) == ((s[0].timestamp == ts && s[0].command == cmd)
            || has_ts_cmd(s1, ts, cmd))) by {
            if has_ts_cmd(s, ts, cmd) {
                let w = choose|i: int|
                    0 <= i < s.len() && (#[trigger] s[i]).timestamp == ts && s[i].command == cmd;
                if w > 0 {
                    assert(s1[w - 1] == s[w]);
                    assert(has_ts_cmd(s1, ts, cmd));
                }
            }
            if has_ts_cmd(s1, ts, cmd) {
                let w = choose|i: int|
                    0 <= i < s1.len() && (#[trigger] s1[i]).timestamp == ts && s1[i].command
                        == cmd;
                assert(s[w + 1] == s1[w]);
                assert(has_ts_cmd(s, ts, cmd));
            }
        }
    } else {
        assert(r == seq![a] + s);
        if a.timestamp == ts && a.command == cmd {
            assert(r[0] == a);
        }
        if has_ts_cmd(s, ts, cmd) {
            let w = choose|i: int|
                0 <= i < s.len() && (#[trigger] s[i]).timestamp == ts && s[i].command == cmd;
            assert(r[w + 1] == s[w]);
        }
        if has_ts_cmd(r, ts, cmd) {
            let w = choose|i: int|
                0 <= i < r.len() && (#[trigger] r[i]).timestamp == ts && r[i].command == cmd;
            if w > 0 {
                assert(s[w - 1] == r[w]);
            }
        }
    }
}

/// Importing the same records twice changes nothing the second time:
/// merging them again into the sorted merge result adds no action and
/// leaves the list exactly as it was.
pub proof fn lemma_import_idempotent(acts: Seq<ActionV>, incoming: Seq<ActionV>)
    ensures
        stable_sort(merge_spec(stable_sort(merge_spec(acts, incoming)), incoming)) == stable_sort(
            merge_spec(acts, incoming),
        ),
{
    let m = merge_spec(acts, incoming);
    let m2 = stable_sort(m);
    lemma_merge_spec_contains(acts, incoming);
    lemma_sort_preserves_pairs(m);
    assert forall|i: int| 0 <= i < incoming.len() implies has_ts_cmd(
        m2,
        (#[trigger] incoming[i]).timestamp,
        incoming[i].command,
    ) by {
        assert(has_ts_cmd(m, incoming[i].timestamp, incoming[i].command));
    }
    lemma_merge_spec_noop(m2, incoming);
    lemma_stable_sort_sorted(m);
    lemma_stable_sort_of_sorted(m2);
}


/// Merging keeps every timestamp in range when both inputs do.
pub proof fn lemma_merge_spec_wf(acts: Seq<ActionV>, incoming: Seq<ActionV>)
    requires
        forall|i: int| 0 <= i < acts.len() ==> ts_in_range((#[trigger] acts[i]).timestamp),
        forall|i: int| 0 <= i < incoming.len() ==> ts_in_range((#[trigger] incoming[i]).timestamp),
    ensures
        forall|i: int|
            0 <= i < merge_spec(acts, incoming).len() ==> ts_in_range(
                (#[trigger] merge_spec(acts, incoming)[i]).timestamp,
            ),
    decreases incoming.len(),
{
    if incoming.len() > 0 {
        let tail = incoming.subrange(1, incoming.len() as int);
        let step = merge_step(acts, incoming[0]);
        assert(forall|i: int| 0 <= i < step.len() ==> ts_in_range(
            (#[trigger] step[i]).timestamp,
        )) by {
            if !has_ts_cmd(acts, incoming[0].timestamp, incoming[0].command) {
                assert(forall|i: int| 0 <= i < acts.len() ==> step[i] == acts[i]);
                assert(step[acts.len() as int] == incoming[0]);
            }
        }
        lemma_merge_spec_wf(step, tail);
    }
}

/// Every element of the sorted sequence is an element of the input.
pub proof fn lemma_stable_sort_members(s: Seq<ActionV>)
    ensures
        forall|i: int|
            0 <= i < stable_sort(s).len() ==> exists|k: int|
                0 <= k < s.len() && #[trigger] s[k] == #[trigger] stable_sort(s)[i],
    decreases s.len(),
{
    if s.len() > 0 {
        let pre = s.drop_last();
        lemma_stable_sort_members(pre);
        let sp = stable_sort(pre);
        let r = stable_sort(s);
        assert forall|i: int| 0 <= i < r.len() implies exists|k: int|
            0 <= k < s.len() && #[trigger] s[k] == #[trigger] r[i] by {
            lemma_insert_sorted_members(sp, s.last(), i);
            if r[i] == s.last() {
                assert(s[s.len() - 1] == r[i]);
            } else {
                let k1 = choose|k: int| 0 <= k < sp.len() && #[trigger] sp[k] == r[i];
                let k2 = choose|k: int| 0 <= k < pre.len() && #[trigger] pre[k] == sp[k1];
                assert(s[k2] == r[i]);
            }
        }
    }
}


/// Importing the same log text twice produces no new actions the second
/// time: merging its surviving records into the already merged, sorted
/// list leaves that list exactly as it was. (A record whose time string
/// does not parse takes the fallback moment as its timestamp, so the law
/// is stated for one fixed fallback moment.)
pub proof fn lemma_import_idempotent_for_text(acts: Seq<ActionV>, text: Seq<char>, now: i64)
    ensures
        stable_sort(
            merge_spec(stable_sort(merge_spec(acts, records_of(text, now))), records_of(text, now)),
        ) == stable_sort(merge_spec(acts, records_of(text, now))),
{
    lemma_import_idempotent(acts, records_of(text, now));
}

} // verus!
