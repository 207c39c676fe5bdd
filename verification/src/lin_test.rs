//! The logic of the linearizability test of a cluster: random commands,
//! the consistency check of the logs of the servers, and the lines of the
//! trace handed to the checker.
use vstd::prelude::*;
use vstd::string::*;
use crate::data_structure::{LogEntry, LogEntryV, opt_bytes_view};
use crate::ddbb_server::entries_view;
use crate::text::{decimal, u64_text};
use rand::Rng;

verus! {

/// Commands of a node run against the same keys: the keys of `n` commands
/// are drawn below `n / LOG_CUNCURRENT_NUM`.
pub const LOG_CUNCURRENT_NUM: u64 = 10;

/// Node `i` of the tested cluster listens on port `STRAT_PORT + i`.
pub const STRAT_PORT: u64 = 6549;

/// A command of the test, and after it ran, its outcome.
#[derive(Clone, Debug, PartialEq, Eq)]
pub enum TestCommandEntry {
    LINRead { key: String, value: Option<Vec<u8>> },
    LINWrite { key: String, value: Vec<u8> },
}

pub enum TestCommandEntryV {
    LINRead { key: Seq<char>, value: Option<Seq<u8>> },
    LINWrite { key: Seq<char>, value: Seq<u8> },
}

impl View for TestCommandEntry {
    type V = TestCommandEntryV;

    open spec fn view(&self) -> TestCommandEntryV {
        match self {
            TestCommandEntry::LINRead { key, value } => TestCommandEntryV::LINRead {
                key: key@,
                value: opt_bytes_view(*value),
            },
            TestCommandEntry::LINWrite { key, value } => TestCommandEntryV::LINWrite {
                key: key@,
                value: value@,
            },
        }
    }
}

/// The draws that the random generator of the test has made, in order,
/// each with the bound that it was drawn below.
pub struct DrawLog {
    draws: Ghost<Seq<(u64, u64)>>,
}

impl DrawLog {
    /// The draws made so far: pairs of a bound and the number drawn below it.
    pub closed spec fn draws(&self) -> Seq<(u64, u64)> {
        self.draws@
    }

    /// A log of no draws.
    pub fn new() -> (r: DrawLog)
        ensures
            r.draws() == Seq::<(u64, u64)>::empty(),
    {
        DrawLog { draws: Ghost(Seq::empty()) }
    }
}

/// A number drawn uniformly below `bound` by the thread's random generator
/// (rand's `thread_rng().gen_range(0..bound)`), noted in `log` with its
/// bound. The log is a ghost record of the library, with nothing in it at
/// run time.
#[verifier::external_body]
fn random_below(log: &mut DrawLog, bound: u64) -> (r: u64)
    requires
        bound > 0,
    ensures
        r < bound,
        final(log).draws() == old(log).draws().push((bound, r)),
{
    rand::thread_rng().gen_range(0..bound)
}

/// `len` random bytes, each drawn below 255, the last drawn first.
fn generate_ran_u8_lst(len: u8, log: &mut DrawLog) -> (r: Vec<u8>)
    ensures
        r@.len() == len,
        forall|i: int| 0 <= i < len ==> r@[i] < 255,
        final(log).draws().len() == old(log).draws().len() + len,
        final(log).draws().subrange(0, old(log).draws().len() as int) == old(log).draws(),
        forall|i: int|
            0 <= i < len ==> #[trigger] final(log).draws()[old(log).draws().len() + i] == (
                255u64,
                r@[len - 1 - i] as u64,
            ),
{
    let ghost start = log.draws();
    let mut res: Vec<u8> = Vec::new();
    let mut i: u8 = 0;
    while i < len
        invariant
            i <= len,
            res@.len() == i,
            forall|j: int| 0 <= j < i ==> res@[j] < 255,
            log.draws().len() == start.len() + i,
            log.draws().subrange(0, start.len() as int) == start,
            forall|j: int|
                0 <= j < i ==> #[trigger] log.draws()[start.len() + j] == (
                    255u64,
                    res@[i - 1 - j] as u64,
                ),
        decreases len - i,
    {
        let ghost before = log.draws();
        let ghost old_res = res@;
        let b = random_below(log, 255) as u8;
        res.insert(0, b);
        assert(log.draws().subrange(0, start.len() as int) =~= before.subrange(0, start.len() as int));
        assert forall|j: int| 0 <= j < i + 1 implies #[trigger] log.draws()[start.len() + j] == (
            255u64,
            res@[i + 1 - 1 - j] as u64,
        ) by {
            if j < i {
                assert(log.draws()[start.len() + j] == before[start.len() + j]);
                assert(res@[i - j] == old_res[i - 1 - j]);
            }
        }
        i = i + 1;
    }
    res
}

/// Whether a command is one that [`generate_commands`] makes for `num`
/// commands: a write of one byte below 255 or a read, to the decimal key of
/// a number below `num / LOG_CUNCURRENT_NUM`.
pub open spec fn generated_command(c: TestCommandEntryV, num: u64) -> bool {
    match c {
        TestCommandEntryV::LINWrite { key, value } => exists|k: nat|
            k < num / LOG_CUNCURRENT_NUM && key == decimal(k) && value.len() == 1 && value[0] < 255,
        TestCommandEntryV::LINRead { key, value } => exists|k: nat|
            k < num / LOG_CUNCURRENT_NUM && key == decimal(k) && value is None,
    }
}

/// The commands that a run of draws makes for a test of `num` commands, the
/// last drawn first. Each command takes a draw below 2 for its kind (1 a
/// read, 0 a write), then a draw below `num / LOG_CUNCURRENT_NUM` whose
/// decimal text is its key, and a write one more below 255 for its byte.
/// `None` where the draws do not have this shape.
pub open spec fn commands_drawn(d: Seq<(u64, u64)>, num: u64) -> Option<Seq<TestCommandEntryV>>
    decreases d.len(),
{
    if d.len() == 0 {
        Some(Seq::empty())
    } else if d.len() >= 2 && d[0].0 == 2 && d[1].0 == num / LOG_CUNCURRENT_NUM {
        let key = decimal(d[1].1 as nat);
        if d[0].1 == 1 {
            match commands_drawn(d.subrange(2, d.len() as int), num) {
                Some(cs) => Some(cs.push(TestCommandEntryV::LINRead { key, value: None })),
                None => None,
            }
        } else if d.len() >= 3 && d[2].0 == 255 {
            match commands_drawn(d.subrange(3, d.len() as int), num) {
                Some(cs) => Some(
                    cs.push(TestCommandEntryV::LINWrite { key, value: seq![d[2].1 as u8] }),
                ),
                None => None,
            }
        } else {
            None
        }
    } else {
        None
    }
}

/// Draws that follow a run of whole commands make one command more, which
/// comes first.
proof fn lemma_commands_drawn_append(
    a: Seq<(u64, u64)>,
    g: Seq<(u64, u64)>,
    num: u64,
    c: TestCommandEntryV,
)
    requires
        commands_drawn(a, num) is Some,
        commands_drawn(g, num) == Some(seq![c]),
    ensures
        commands_drawn(a + g, num) == Some(seq![c] + commands_drawn(a, num)->0),
    decreases a.len(),
{
    let x = a + g;
    if a.len() == 0 {
        assert(x =~= g);
        assert(seq![c] + Seq::<TestCommandEntryV>::empty() =~= seq![c]);
    } else {
        assert(x[0] == a[0] && x[1] == a[1]);
        let k: int = if a[0].1 == 1 {
            2
        } else {
            3
        };
        if k == 3 {
            assert(x[2] == a[2]);
        }
        let rest = a.subrange(k, a.len() as int);
        lemma_commands_drawn_append(rest, g, num, c);
        assert(x.subrange(k, x.len() as int) =~= rest + g);
        let cs = commands_drawn(rest, num)->0;
        let first = commands_drawn(a, num)->0.last();
        assert(commands_drawn(a, num)->0 == cs.push(first));
        assert((seq![c] + cs).push(first) =~= seq![c] + cs.push(first));
    }
}

/// The kind of a command is a two-way draw, and both outcomes make a
/// command: 1 a read of the key drawn, 0 a write of the key and byte drawn.
/// A kind drawn below any other bound makes no command.
pub proof fn lemma_command_kind_is_a_two_way_draw(num: u64, key: u64, byte: u64, bound: u64)
    requires
        bound != 2,
    ensures
        commands_drawn(seq![(2u64, 1u64), (num / LOG_CUNCURRENT_NUM, key)], num) == Some(
            seq![TestCommandEntryV::LINRead { key: decimal(key as nat), value: None }],
        ),
        commands_drawn(
            seq![(2u64, 0u64), (num / LOG_CUNCURRENT_NUM, key), (255u64, byte)],
            num,
        ) == Some(
            seq![
                TestCommandEntryV::LINWrite {
                    key: decimal(key as nat),
                    value: seq![byte as u8],
                },
            ],
        ),
        commands_drawn(seq![(bound, 0u64), (num / LOG_CUNCURRENT_NUM, key), (255u64, byte)], num)
            is None,
        commands_drawn(seq![(bound, 1u64), (num / LOG_CUNCURRENT_NUM, key)], num) is None,
{
    let r = seq![(2u64, 1u64), (num / LOG_CUNCURRENT_NUM, key)];
    let w = seq![(2u64, 0u64), (num / LOG_CUNCURRENT_NUM, key), (255u64, byte)];
    assert(r.subrange(2, 2) =~= Seq::<(u64, u64)>::empty());
    assert(w.subrange(3, 3) =~= Seq::<(u64, u64)>::empty());
    assert(commands_drawn(r.subrange(2, 2), num) == Some(Seq::<TestCommandEntryV>::empty()));
    assert(commands_drawn(w.subrange(3, 3), num) == Some(Seq::<TestCommandEntryV>::empty()));
    assert(Seq::<TestCommandEntryV>::empty().push(
        TestCommandEntryV::LINRead { key: decimal(key as nat), value: None },
    ) =~= seq![TestCommandEntryV::LINRead { key: decimal(key as nat), value: None }]);
    assert(Seq::<TestCommandEntryV>::empty().push(
        TestCommandEntryV::LINWrite { key: decimal(key as nat), value: seq![byte as u8] },
    ) =~= seq![TestCommandEntryV::LINWrite { key: decimal(key as nat), value: seq![byte as u8] }]);
}

/// The command that the draws of [`generate_commands`] make: a write of
/// `value` to the decimal key `k` where `kind` is 0, a read of that key where
/// it is 1.
pub fn command_of_draws(kind: u64, k: u64, value: Vec<u8>) -> (c: TestCommandEntry)
    requires
        kind < 2,
    ensures
        kind == 0 ==> c@ == (TestCommandEntryV::LINWrite { key: decimal(k as nat), value: value@ }),
        kind == 1 ==> c@ == (TestCommandEntryV::LINRead { key: decimal(k as nat), value: None }),
{
    if kind == 0 {
        TestCommandEntry::LINWrite { key: u64_text(k), value }
    } else {
        TestCommandEntry::LINRead { key: u64_text(k), value: None }
    }
}

/// `num` random commands made by the draws that they add to `log` (see
/// [`commands_drawn`]): the kind of each is a draw below 2, so a write or a
/// read with even odds.
pub fn generate_commands_drawn(num: u64, log: &mut DrawLog) -> (r: Vec<TestCommandEntry>)
    requires
        num == 0 || num >= LOG_CUNCURRENT_NUM,
    ensures
        r@.len() == num,
        forall|i: int| 0 <= i < num ==> generated_command(#[trigger] r@[i]@, num),
        final(log).draws().len() >= old(log).draws().len(),
        final(log).draws().subrange(0, old(log).draws().len() as int) == old(log).draws(),
        commands_drawn(
            final(log).draws().subrange(old(log).draws().len() as int, final(log).draws().len() as int),
            num,
        ) == Some(commands_view(r@)),
{
    let ghost start = log.draws();
    let ghost n0 = start.len() as int;
    let mut res: Vec<TestCommandEntry> = Vec::new();
    let mut i: u64 = 0;
    assert(log.draws().subrange(n0, n0) =~= Seq::<(u64, u64)>::empty());
    assert(commands_view(res@) =~= Seq::<TestCommandEntryV>::empty());
    while i < num
        invariant
            i <= num,
            num == 0 || num >= LOG_CUNCURRENT_NUM,
            res@.len() == i,
            forall|j: int| 0 <= j < i ==> generated_command(#[trigger] res@[j]@, num),
            n0 == start.len(),
            log.draws().len() >= n0,
            log.draws().subrange(0, n0) == start,
            commands_drawn(log.draws().subrange(n0, log.draws().len() as int), num) == Some(
                commands_view(res@),
            ),
        decreases num - i,
    {
        let ghost before = log.draws();
        let ghost m = before.len() as int;
        let kind = random_below(log, 2);
        let ghost before_res = res@;
        let k = random_below(log, num / LOG_CUNCURRENT_NUM);
        let ghost drawn = log.draws();
        assert(drawn[m] == (2u64, kind));
        assert(drawn[m + 1] == (num / LOG_CUNCURRENT_NUM, k));
        let value = if kind == 0 {
            generate_ran_u8_lst(1, log)
        } else {
            Vec::new()
        };
        let c = command_of_draws(kind, k, value);
        assert(generated_command(c@, num));
        res.insert(0, c);
        assert forall|j: int| 0 <= j < i + 1 implies generated_command(#[trigger] res@[j]@, num) by {
            if j > 0 {
                assert(res@[j] == before_res[j - 1]);
            }
        }
        proof {
            let after = log.draws();
            let g = after.subrange(m, after.len() as int);
            assert(after.subrange(0, m) =~= before);
            assert(after.subrange(0, n0) =~= before.subrange(0, n0));
            assert(after.subrange(0, m + 2) =~= drawn);
            assert(g[0] == after[m]);
            assert(g[1] == after[m + 1]);
            assert(after[m] == drawn[m]);
            assert(after[m + 1] == drawn[m + 1]);
            if kind == 0 {
                assert(g.len() == 3);
                assert(after[drawn.len() as int + 0] == (255u64, value@[1 - 1 - 0] as u64));
                assert(g[2] == after[m + 2]);
                assert(g[2] == (255u64, value@[0] as u64));
                assert(g.subrange(3, 3) =~= Seq::<(u64, u64)>::empty());
                assert(commands_drawn(g.subrange(3, 3), num) == Some(Seq::<TestCommandEntryV>::empty()));
                assert(value@ =~= seq![g[2].1 as u8]);
            } else {
                assert(g.len() == 2);
                assert(g.subrange(2, 2) =~= Seq::<(u64, u64)>::empty());
                assert(commands_drawn(g.subrange(2, 2), num) == Some(Seq::<TestCommandEntryV>::empty()));
            }
            assert(Seq::<TestCommandEntryV>::empty().push(c@) =~= seq![c@]);
            assert(commands_drawn(g, num) == Some(seq![c@]));
            let a = before.subrange(n0, m);
            lemma_commands_drawn_append(a, g, num, c@);
            assert(after.subrange(n0, after.len() as int) =~= a + g);
            assert(commands_view(res@) =~= seq![c@] + commands_view(before_res));
        }
        i = i + 1;
    }
    res
}

/// `num` random commands, each a write or a read with even odds (see
/// [`generate_commands_drawn`]).
pub fn generate_commands(num: u64) -> (r: Vec<TestCommandEntry>)
    requires
        num == 0 || num >= LOG_CUNCURRENT_NUM,
    ensures
        r@.len() == num,
        forall|i: int| 0 <= i < num ==> generated_command(#[trigger] r@[i]@, num),
{
    let mut log = DrawLog::new();
    generate_commands_drawn(num, &mut log)
}

/// Whether every log is the same as the first one.
pub open spec fn logs_consistent(logs: Seq<Seq<LogEntryV>>) -> bool {
    forall|j: int| 0 <= j < logs.len() ==> #[trigger] logs[j] == logs[0]
}

pub open spec fn logs_view(logs: Seq<Vec<LogEntry>>) -> Seq<Seq<LogEntryV>> {
    logs.map_values(|v: Vec<LogEntry>| entries_view(v@))
}

/// Whether the logs of all servers are the same: of the same length, and
/// equal entry by entry.
pub fn check_log_consistency(logs_vec: &Vec<Vec<LogEntry>>) -> (r: bool)
    requires
        logs_vec@.len() > 0,
    ensures
        r == logs_consistent(logs_view(logs_vec@)),
{
    let ghost lv = logs_view(logs_vec@);
    let mut is_cons = true;
    let len = logs_vec[0].len();
    let mut i: usize = 0;
    while i < logs_vec.len()
        invariant
            i <= logs_vec@.len(),
            logs_vec@.len() > 0,
            lv == logs_view(logs_vec@),
            len == logs_vec@[0]@.len(),
            forall|j: int| 0 <= j < i ==> #[trigger] logs_vec@[j]@.len() == len,
        decreases logs_vec.len() - i,
    {
        if logs_vec[i].len() != len {
            assert(lv[i as int].len() != lv[0].len());
            return false;
        }
        i = i + 1;
    }
    let mut i: usize = 0;
    while i < len
        invariant
            i <= len,
            logs_vec@.len() > 0,
            len == logs_vec@[0]@.len(),
            lv == logs_view(logs_vec@),
            forall|j: int| 0 <= j < logs_vec@.len() ==> #[trigger] logs_vec@[j]@.len() == len,
            is_cons == (forall|a: int, j: int|
                0 <= a < i && 0 <= j < logs_vec@.len() ==> #[trigger] logs_vec@[j]@[a]@
                    == logs_vec@[0]@[a]@),
        decreases len - i,
    {
        let log = &logs_vec[0][i];
        let mut j: usize = 0;
        let ghost was = is_cons;
        while j < logs_vec.len()
            invariant
                i < len,
                logs_vec@.len() > 0,
                j <= logs_vec@.len(),
                len == logs_vec@[0]@.len(),
                forall|j: int| 0 <= j < logs_vec@.len() ==> #[trigger] logs_vec@[j]@.len() == len,
                *log == logs_vec@[0]@[i as int],
                is_cons == (was && forall|b: int|
                    0 <= b < j ==> #[trigger] logs_vec@[b]@[i as int]@ == logs_vec@[0]@[i as int]@),
            decreases logs_vec.len() - j,
        {
            if !logs_vec[j][i].same(log) {
                is_cons = false;
            }
            j = j + 1;
        }
        assert(is_cons == (forall|a: int, j: int|
            0 <= a < i + 1 && 0 <= j < logs_vec@.len() ==> #[trigger] logs_vec@[j]@[a]@
                == logs_vec@[0]@[a]@)) by {
            if !is_cons && was {
                let b = choose|b: int|
                    0 <= b < logs_vec@.len() && !(#[trigger] logs_vec@[b]@[i as int]@
                        == logs_vec@[0]@[i as int]@);
                assert(logs_vec@[b]@[i as int]@ != logs_vec@[0]@[i as int]@);
            }
        }
        i = i + 1;
    }
    proof {
        if is_cons {
            assert forall|j: int| 0 <= j < lv.len() implies #[trigger] lv[j] == lv[0] by {
                assert(lv[j] =~= lv[0]);
            }
        } else {
            let (a, j) = choose|a: int, j: int|
                0 <= a < len && 0 <= j < logs_vec@.len() && !(#[trigger] logs_vec@[j]@[a]@
                    == logs_vec@[0]@[a]@);
            assert(lv[j][a] != lv[0][a]);
        }
    }
    is_cons
}

} // verus!

verus! {

broadcast use vstd::std_specs::hash::group_hash_axioms;

/// The address of node `i` of the tested cluster.
pub open spec fn node_addr(i: u64) -> Seq<char> {
    "127.0.0.1:"@ + decimal((STRAT_PORT + i) as nat)
}

/// The tested cluster of `node_num` nodes, numbered from 1, each at its
/// address (see [`node_addr`]).
pub fn generate_cluster(node_num: u64) -> (r: std::collections::HashMap<u64, String>)
    requires
        node_num + STRAT_PORT <= u64::MAX,
    ensures
        forall|i: u64| #[trigger] r@.contains_key(i) <==> 1 <= i <= node_num,
        forall|i: u64| 1 <= i <= node_num ==> (#[trigger] r@[i])@ == node_addr(i),
{
    let mut res: std::collections::HashMap<u64, String> = std::collections::HashMap::new();
    let mut i: u64 = 1;
    while i < node_num + 1
        invariant
            1 <= i <= node_num + 1,
            node_num + STRAT_PORT <= u64::MAX,
            forall|j: u64| #[trigger] res@.contains_key(j) <==> 1 <= j < i,
            forall|j: u64| 1 <= j < i ==> (#[trigger] res@[j])@ == node_addr(j),
        decreases node_num + 1 - i,
    {
        let mut addr = "127.0.0.1:".to_owned();
        let port = u64_text(STRAT_PORT + i);
        addr.append(port.as_str());
        res.insert(i, addr);
        i = i + 1;
    }
    res
}

/// The text of the value of a command in a trace line.
pub open spec fn trace_value(c: TestCommandEntryV) -> Seq<char> {
    match c {
        TestCommandEntryV::LINRead { value, .. } => match value {
            None => ":f :read, :value \"nil\" "@,
            Some(v) => ":f :read, :value "@ + decimal(v[0] as nat),
        },
        TestCommandEntryV::LINWrite { value, .. } => ":f :write, :value "@ + decimal(
            value[0] as nat,
        ),
    }
}

/// The line of one event of a trace.
pub open spec fn trace_line(kind: Seq<char>, c: TestCommandEntryV, nodeid: u64, time: u64, index: nat) -> Seq<char> {
    kind + trace_value(c) + ", :process "@ + decimal(nodeid as nat) + ", :time "@ + decimal(
        time as nat,
    ) + ", :index "@ + decimal(index) + "}\n"@
}

/// Whether the values of a command can be written in a trace: a write, or a
/// read that found a value, holds at least one byte.
pub open spec fn traceable(c: TestCommandEntryV) -> bool {
    match c {
        TestCommandEntryV::LINRead { value, .. } => value matches Some(v) ==> v.len() > 0,
        TestCommandEntryV::LINWrite { value, .. } => value.len() > 0,
    }
}

/// The two lines that a command of node `nodeid` adds to a trace: its
/// invocation at `start` with index `idx`, and its completion at `end` with
/// index `idx + 1`. Times are in nanoseconds from the start of the test.
pub fn trace_lines(nodeid: u64, log: &TestCommandEntry, start: u64, end: u64, idx: u64) -> (r: (
    String,
    String,
))
    requires
        traceable(log@),
        idx < u64::MAX,
    ensures
        r.0@ == trace_line("{:type :invoke, "@, log@, nodeid, start, idx as nat),
        r.1@ == trace_line("{:type :ok, "@, log@, nodeid, end, (idx + 1) as nat),
{
    let mut invoke = "{:type :invoke, ".to_owned();
    let mut ok = "{:type :ok, ".to_owned();
    let ghost i0 = invoke@;
    let ghost o0 = ok@;
    match log {
        TestCommandEntry::LINRead { value, .. } => {
            match value {
                None => {
                    invoke.append(":f :read, :value \"nil\" ");
                    ok.append(":f :read, :value \"nil\" ");
                },
                Some(v) => {
                    let t = u64_text(v[0] as u64);
                    invoke.append(":f :read, :value ");
                    invoke.append(t.as_str());
                    ok.append(":f :read, :value ");
                    ok.append(t.as_str());
                },
            }
        },
        TestCommandEntry::LINWrite { value, .. } => {
            let t = u64_text(value[0] as u64);
            invoke.append(":f :write, :value ");
            invoke.append(t.as_str());
            ok.append(":f :write, :value ");
            ok.append(t.as_str());
        },
    }
    assert(invoke@ =~= i0 + trace_value(log@));
    assert(ok@ =~= o0 + trace_value(log@));
    let node = u64_text(nodeid);
    invoke.append(", :process ");
    invoke.append(node.as_str());
    invoke.append(", :time ");
    invoke.append(u64_text(start).as_str());
    invoke.append(", :index ");
    invoke.append(u64_text(idx).as_str());
    invoke.append("}\n");
    ok.append(", :process ");
    ok.append(node.as_str());
    ok.append(", :time ");
    ok.append(u64_text(end).as_str());
    ok.append(", :index ");
    ok.append(u64_text(idx + 1).as_str());
    ok.append("}\n");
    (invoke, ok)
}

/// A command of the trace of one key, with the node that ran it and the
/// times of its invocation and completion, in nanoseconds from the start of
/// the test.
#[derive(Clone, Debug)]
pub struct TimedCommand {
    pub nodeid: u64,
    pub log: TestCommandEntry,
    pub start: u64,
    pub end: u64,
}

/// The text of a trace: for the `i`-th command, its invocation line with
/// index `2 * i`, then its completion line with index `2 * i + 1`.
pub open spec fn trace_text_of(trace: Seq<TimedCommand>) -> Seq<char>
    decreases trace.len(),
{
    if trace.len() == 0 {
        Seq::empty()
    } else {
        let i = (trace.len() - 1) as nat;
        let e = trace.last();
        trace_text_of(trace.drop_last()) + trace_line("{:type :invoke, "@, e.log@, e.nodeid, e.start, 2 * i)
            + trace_line("{:type :ok, "@, e.log@, e.nodeid, e.end, 2 * i + 1)
    }
}

/// The text of the trace of one key that the checker reads (see
/// [`trace_text_of`]).
pub fn trace_text(trace: &Vec<TimedCommand>) -> (r: String)
    requires
        forall|i: int| 0 <= i < trace@.len() ==> traceable(#[trigger] trace@[i].log@),
        2 * trace@.len() < u64::MAX,
    ensures
        r@ == trace_text_of(trace@),
{
    let mut text = String::new();
    let mut i: usize = 0;
    while i < trace.len()
        invariant
            i <= trace@.len(),
            2 * trace@.len() < u64::MAX,
            forall|j: int| 0 <= j < trace@.len() ==> traceable(#[trigger] trace@[j].log@),
            text@ == trace_text_of(trace@.take(i as int)),
        decreases trace@.len() - i,
    {
        let e = &trace[i];
        let idx: u64 = 2 * (i as u64);
        let (invoke, ok) = trace_lines(e.nodeid, &e.log, e.start, e.end, idx);
        text.append(invoke.as_str());
        text.append(ok.as_str());
        proof {
            let t = trace@.take(i + 1);
            assert(t.drop_last() =~= trace@.take(i as int));
            assert(t.last() == trace@[i as int]);
        }
        i = i + 1;
    }
    assert(trace@.take(i as int) =~= trace@);
    text
}

} // verus!

verus! {

/// The key of a command.
pub open spec fn command_key(c: TestCommandEntryV) -> Seq<char> {
    match c {
        TestCommandEntryV::LINRead { key, .. } => key,
        TestCommandEntryV::LINWrite { key, .. } => key,
    }
}

/// The positions below `n` of the commands on `key`, last first.
pub open spec fn positions_of_key(cs: Seq<TestCommandEntryV>, key: Seq<char>, n: int) -> Seq<usize>
    decreases n,
{
    if n <= 0 {
        Seq::empty()
    } else if command_key(cs[n - 1]) == key {
        seq![(n - 1) as usize] + positions_of_key(cs, key, n - 1)
    } else {
        positions_of_key(cs, key, n - 1)
    }
}

pub open spec fn commands_view(cs: Seq<TestCommandEntry>) -> Seq<TestCommandEntryV> {
    cs.map_values(|c: TestCommandEntry| c@)
}

/// The keys of the first `n` commands of `cs`, each once, in the order in
/// which they first occur.
pub open spec fn first_keys(cs: Seq<TestCommandEntryV>, n: int) -> Seq<Seq<char>>
    decreases n,
{
    if n <= 0 {
        Seq::empty()
    } else {
        let ks = first_keys(cs, n - 1);
        let k = command_key(cs[n - 1]);
        if ks.contains(k) {
            ks
        } else {
            ks.push(k)
        }
    }
}

/// Whether `groups` groups the first `n` commands of `cs` by key: one group
/// for each key, in the order in which keys first occur, holding the
/// positions of the commands on that key, last first.
pub open spec fn grouped(cs: Seq<TestCommandEntryV>, groups: Seq<(String, Vec<usize>)>, n: int) -> bool {
    &&& groups.len() == first_keys(cs, n).len()
    &&& forall|a: int|
        0 <= a < groups.len() ==> (#[trigger] groups[a]).0@ == first_keys(cs, n)[a]
            && groups[a].1@ == positions_of_key(cs, groups[a].0@, n)
}

/// No key occurs twice among the first keys, and each command's key is
/// among them.
pub proof fn lemma_first_keys(cs: Seq<TestCommandEntryV>, n: int)
    requires
        0 <= n <= cs.len(),
    ensures
        first_keys(cs, n).no_duplicates(),
        forall|j: int| 0 <= j < n ==> first_keys(cs, n).contains(#[trigger] command_key(cs[j])),
    decreases n,
{
    if n > 0 {
        lemma_first_keys(cs, n - 1);
        let ks = first_keys(cs, n - 1);
        let k = command_key(cs[n - 1]);
        if !ks.contains(k) {
            let t = ks.push(k);
            assert forall|a: int, b: int| 0 <= a < t.len() && 0 <= b < t.len() && a != b implies t[a]
                != t[b] by {
                if a < ks.len() && b < ks.len() {
                    assert(t[a] == ks[a] && t[b] == ks[b]);
                } else if a < ks.len() {
                    assert(t[a] == ks[a]);
                } else if b < ks.len() {
                    assert(t[b] == ks[b]);
                }
            }
            assert forall|j: int| 0 <= j < n implies t.contains(#[trigger] command_key(cs[j])) by {
                if j < n - 1 {
                    let x = command_key(cs[j]);
                    assert(ks.contains(x));
                    let a = choose|a: int| 0 <= a < ks.len() && ks[a] == x;
                    assert(t[a] == x);
                } else {
                    assert(t[ks.len() as int] == k);
                }
            }
        }
    }
}

/// A key that is not among the first keys has no command before `n`.
proof fn lemma_positions_absent(cs: Seq<TestCommandEntryV>, key: Seq<char>, n: int)
    requires
        0 <= n <= cs.len(),
        !first_keys(cs, n).contains(key),
    ensures
        positions_of_key(cs, key, n) == Seq::<usize>::empty(),
{
    lemma_first_keys(cs, n);
    assert forall|j: int| 0 <= j < n implies command_key(cs[j]) != key by {
        assert(first_keys(cs, n).contains(command_key(cs[j])));
    }
    lemma_positions_none(cs, key, n);
}

proof fn lemma_positions_none(cs: Seq<TestCommandEntryV>, key: Seq<char>, n: int)
    requires
        forall|j: int| 0 <= j < n ==> command_key(cs[j]) != key,
    ensures
        positions_of_key(cs, key, n) == Seq::<usize>::empty(),
    decreases n,
{
    if n > 0 {
        lemma_positions_none(cs, key, n - 1);
    }
}

/// The position of the group of `key`, if there is one.
fn find_group(groups: &Vec<(String, Vec<usize>)>, key: &String) -> (r: Option<usize>)
    ensures
        match r {
            Some(g) => g < groups@.len() && groups@[g as int].0@ == key@,
            None => forall|a: int| 0 <= a < groups@.len() ==> groups@[a].0@ != key@,
        },
{
    let mut g: usize = 0;
    while g < groups.len()
        invariant
            g <= groups@.len(),
            forall|a: int| 0 <= a < g ==> groups@[a].0@ != key@,
        decreases groups.len() - g,
    {
        if groups[g].0 == *key {
            return Some(g);
        }
        g = g + 1;
    }
    None
}

/// One step of grouping, where the key of command `n` has a group at `g`.
proof fn lemma_grouped_extend(
    cs: Seq<TestCommandEntryV>,
    old: Seq<(String, Vec<usize>)>,
    new: Seq<(String, Vec<usize>)>,
    n: int,
    g: int,
)
    requires
        0 <= n < cs.len(),
        grouped(cs, old, n),
        0 <= g < old.len(),
        old[g].0@ == command_key(cs[n]),
        new.len() == old.len(),
        new[g].0 == old[g].0,
        new[g].1@ == seq![n as usize] + old[g].1@,
        forall|a: int| 0 <= a < old.len() && a != g ==> new[a] == old[a],
    ensures
        grouped(cs, new, n + 1),
{
    let ks = first_keys(cs, n);
    let k = command_key(cs[n]);
    assert(ks[g] == k);
    assert(ks.contains(k));
    assert(first_keys(cs, n + 1) == ks);
    lemma_first_keys(cs, n);
    assert forall|a: int| 0 <= a < new.len() implies (#[trigger] new[a]).0@ == first_keys(cs, n + 1)[a]
        && new[a].1@ == positions_of_key(cs, new[a].0@, n + 1) by {
        assert(old[a].0@ == ks[a]);
        if a != g {
            assert(ks[a] != ks[g]);
        }
    }
}

/// One step of grouping, where the key of command `n` has no group yet.
proof fn lemma_grouped_push(
    cs: Seq<TestCommandEntryV>,
    old: Seq<(String, Vec<usize>)>,
    p: (String, Vec<usize>),
    n: int,
)
    requires
        0 <= n < cs.len(),
        grouped(cs, old, n),
        p.0@ == command_key(cs[n]),
        forall|a: int| 0 <= a < old.len() ==> old[a].0@ != p.0@,
        p.1@ == seq![n as usize],
    ensures
        grouped(cs, old.push(p), n + 1),
{
    let ks = first_keys(cs, n);
    let k = p.0@;
    assert(!ks.contains(k)) by {
        if ks.contains(k) {
            let a = choose|a: int| 0 <= a < ks.len() && ks[a] == k;
            assert(old[a].0@ == ks[a]);
        }
    }
    assert(first_keys(cs, n + 1) == ks.push(k));
    lemma_positions_absent(cs, k, n);
    let new = old.push(p);
    assert forall|a: int| 0 <= a < new.len() implies (#[trigger] new[a]).0@ == first_keys(cs, n + 1)[a]
        && new[a].1@ == positions_of_key(cs, new[a].0@, n + 1) by {
        if a == old.len() {
            assert(new[a] == p);
            assert(positions_of_key(cs, k, n + 1) =~= seq![n as usize] + positions_of_key(cs, k, n));
        } else {
            assert(new[a] == old[a]);
            assert(old[a].0@ == ks[a]);
        }
    }
}

/// The trace grouped by key: one group for each key of a command, in the
/// order in which keys first occur, holding the positions of the commands
/// on that key, last first (see [`grouped`]).
pub fn group_by_key(trace: &Vec<TestCommandEntry>) -> (groups: Vec<(String, Vec<usize>)>)
    ensures
        grouped(commands_view(trace@), groups@, trace@.len() as int),
{
    let ghost cs = commands_view(trace@);
    let mut groups: Vec<(String, Vec<usize>)> = Vec::new();
    let mut i: usize = 0;
    while i < trace.len()
        invariant
            i <= trace@.len(),
            cs == commands_view(trace@),
            grouped(cs, groups@, i as int),
        decreases trace.len() - i,
    {
        let key = match &trace[i] {
            TestCommandEntry::LINRead { key, .. } => key,
            TestCommandEntry::LINWrite { key, .. } => key,
        };
        assert(key@ == command_key(cs[i as int]));
        let ghost old_groups = groups@;
        match find_group(&groups, key) {
            Some(g) => {
                let mut entry: (String, Vec<usize>) = (String::new(), Vec::new());
                std::mem::swap(&mut entry, &mut groups[g]);
                entry.1.insert(0, i);
                groups.set(g, entry);
                proof {
                    assert(groups@[g as int].1@ =~= seq![i] + old_groups[g as int].1@);
                    lemma_grouped_extend(cs, old_groups, groups@, i as int, g as int);
                }
            },
            None => {
                let positions = vec![i];
                assert(positions@ =~= seq![i]);
                let p = (key.clone(), positions);
                proof {
                    lemma_grouped_push(cs, old_groups, p, i as int);
                }
                groups.push(p);
            },
        }
        i = i + 1;
    }
    groups
}

} // verus!

verus! {

/// Whether the logs hold the same logs as `q`, each as often, in any order.
pub open spec fn same_logs(p: Seq<Seq<LogEntryV>>, q: Seq<Seq<LogEntryV>>) -> bool {
    p.to_multiset() == q.to_multiset()
}

proof fn lemma_consistent_all_equal(p: Seq<Seq<LogEntryV>>, x: Seq<LogEntryV>, y: Seq<LogEntryV>)
    requires
        logs_consistent(p),
        p.contains(x),
        p.contains(y),
    ensures
        x == y,
{
    let i = choose|i: int| 0 <= i < p.len() && p[i] == x;
    let j = choose|j: int| 0 <= j < p.len() && p[j] == y;
    assert(p[i] == p[0] && p[j] == p[0]);
}

/// Whether the logs are consistent does not depend on their order.
pub proof fn lemma_consistency_ignores_order(p: Seq<Seq<LogEntryV>>, q: Seq<Seq<LogEntryV>>)
    requires
        same_logs(p, q),
    ensures
        logs_consistent(p) == logs_consistent(q),
{
    p.to_multiset_ensures();
    q.to_multiset_ensures();
    if logs_consistent(p) {
        assert forall|j: int| 0 <= j < q.len() implies #[trigger] q[j] == q[0] by {
            assert(q.contains(q[j]) && q.to_multiset().count(q[j]) > 0);
            assert(q.contains(q[0]) && q.to_multiset().count(q[0]) > 0);
            lemma_consistent_all_equal(p, q[j], q[0]);
        }
    }
    if logs_consistent(q) {
        assert forall|j: int| 0 <= j < p.len() implies #[trigger] p[j] == p[0] by {
            assert(p.contains(p[j]) && p.to_multiset().count(p[j]) > 0);
            assert(p.contains(p[0]) && p.to_multiset().count(p[0]) > 0);
            lemma_consistent_all_equal(q, p[j], p[0]);
        }
    }
}

} // verus!

verus! {

/// The positions of the commands on a key are exactly the positions below
/// `n` whose command is on that key, each once, last first.
pub proof fn lemma_positions_of_key_exact(cs: Seq<TestCommandEntryV>, key: Seq<char>, n: int)
    requires
        0 <= n <= cs.len(),
        n <= usize::MAX + 1,
    ensures
        forall|x: int|
            0 <= x < positions_of_key(cs, key, n).len() ==> (#[trigger] positions_of_key(
                cs,
                key,
                n,
            )[x]) < n && command_key(cs[positions_of_key(cs, key, n)[x] as int]) == key,
        forall|j: int|
            0 <= j < n && command_key(cs[j]) == key ==> #[trigger] positions_of_key(
                cs,
                key,
                n,
            ).contains(j as usize),
        forall|x: int, y: int|
            0 <= x < y < positions_of_key(cs, key, n).len() ==> #[trigger] positions_of_key(cs, key, n)[y]
                < #[trigger] positions_of_key(cs, key, n)[x],
    decreases n,
{
    if n > 0 {
        lemma_positions_of_key_exact(cs, key, n - 1);
        let p = positions_of_key(cs, key, n - 1);
        let q = positions_of_key(cs, key, n);
        if command_key(cs[n - 1]) == key {
            assert(q == seq![(n - 1) as usize] + p);
            assert forall|x: int| 0 <= x < q.len() implies (#[trigger] q[x]) < n && command_key(
                cs[q[x] as int],
            ) == key by {
                if x > 0 {
                    assert(q[x] == p[x - 1]);
                }
            }
            assert forall|j: int| 0 <= j < n && command_key(cs[j]) == key implies #[trigger] q.contains(
                j as usize,
            ) by {
                if j < n - 1 {
                    assert(p.contains(j as usize));
                    let x = choose|x: int| 0 <= x < p.len() && p[x] == j as usize;
                    assert(q[x + 1] == p[x]);
                    assert(q[x + 1] == j as usize);
                } else {
                    assert(q[0] == j as usize);
                }
            }
            assert forall|x: int, y: int| 0 <= x < y < q.len() implies #[trigger] q[y] < #[trigger] q[x] by {
                assert(q[y] == p[y - 1]);
                if x > 0 {
                    assert(q[x] == p[x - 1]);
                }
            }
        } else {
            assert(q == p);
            assert forall|j: int| 0 <= j < n && command_key(cs[j]) == key implies #[trigger] q.contains(
                j as usize,
            ) by {
                assert(j < n - 1);
                assert(p.contains(j as usize));
            }
        }
    }
}

/// The logs are consistent exactly when every two of them are equal.
pub proof fn lemma_consistent_iff_pairwise_equal(logs: Seq<Seq<LogEntryV>>)
    ensures
        logs_consistent(logs) <==> forall|i: int, j: int|
            0 <= i < logs.len() && 0 <= j < logs.len() ==> #[trigger] logs[i] == #[trigger] logs[j],
{
    if logs_consistent(logs) {
        assert forall|i: int, j: int| 0 <= i < logs.len() && 0 <= j < logs.len() implies #[trigger] logs[i]
            == #[trigger] logs[j] by {
            assert(logs[i] == logs[0]);
            assert(logs[j] == logs[0]);
        }
    }
}

} // verus!

verus! {

/// The text of a trace grows by two lines for each command: the invocation
/// of the `i`-th command with index `2 * i`, then its completion with index
/// `2 * i + 1`; an empty trace has no text.
pub proof fn lemma_trace_text_two_lines_each(trace: Seq<TimedCommand>)
    ensures
        trace_text_of(Seq::<TimedCommand>::empty()) == Seq::<char>::empty(),
        forall|i: int|
            0 <= i < trace.len() ==> #[trigger] trace_text_of(trace.take(i + 1)) == trace_text_of(
                trace.take(i),
            ) + trace_line(
                "{:type :invoke, "@,
                trace[i].log@,
                trace[i].nodeid,
                trace[i].start,
                (2 * i) as nat,
            ) + trace_line(
                "{:type :ok, "@,
                trace[i].log@,
                trace[i].nodeid,
                trace[i].end,
                (2 * i + 1) as nat,
            ),
{
    assert forall|i: int| 0 <= i < trace.len() implies #[trigger] trace_text_of(trace.take(i + 1))
        == trace_text_of(trace.take(i)) + trace_line(
        "{:type :invoke, "@,
        trace[i].log@,
        trace[i].nodeid,
        trace[i].start,
        (2 * i) as nat,
    ) + trace_line("{:type :ok, "@, trace[i].log@, trace[i].nodeid, trace[i].end, (2 * i + 1) as nat) by {
        let t = trace.take(i + 1);
        assert(t.drop_last() =~= trace.take(i));
        assert(t.last() == trace[i]);
    }
}

} // verus!
