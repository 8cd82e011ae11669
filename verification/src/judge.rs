//! Judge requests and the order in which a judge's test cases are sent.
use std::collections::HashMap;
use vstd::prelude::*;

verus! {

/// How a submission is judged.
#[derive(Clone, Copy, Debug, PartialEq, Eq, Structural)]
pub enum JudgementType {
    /// Compile and run the main code against each test, then check.
    Simple,
    /// As `Simple`, with a manager program and grader files.
    Novel,
}

/// The priority of a judge; a larger weight makes it look longer to the
/// scheduler.
#[derive(Clone, Copy, Debug, PartialEq, Eq, Structural)]
pub enum PrioirityWeight {
    First,
    Second,
}

impl PrioirityWeight {
    /// The weight the scheduler multiplies a judge's estimated time by.
    pub fn weight(&self) -> (w: u64)
        ensures
            w == match self {
                PrioirityWeight::First => 1u64,
                PrioirityWeight::Second => 2u64,
            },
    {
        match self {
            PrioirityWeight::First => 1,
            PrioirityWeight::Second => 2,
        }
    }
}

/// A request to judge one submission. `P` locates a test file.
#[derive(Clone, Debug)]
pub struct RequestJudge<P> {
    pub uuid: u128,
    pub judge_priority: PrioirityWeight,
    pub test_size: usize,
    pub stdin: Vec<P>,
    pub stdout: Vec<P>,
    pub main: Vec<u8>,
    pub checker: Vec<u8>,
    pub judgement_type: JudgementType,
    pub main_path: Option<String>,
    pub object_path: Option<String>,
    pub manager: Option<Vec<u8>>,
    pub graders: Option<P>,
    pub manager_lang_uuid: Option<u128>,
    pub procs: Option<usize>,
    pub main_lang_uuid: u128,
    pub checker_lang_uuid: u128,
    pub time_limit: u64,
    pub mem_limit: u64,
}

/// Where the walk over a judge's test cases goes after a test.
#[derive(Clone, Copy, Debug, PartialEq, Eq, Structural)]
pub enum TestcaseState {
    Next(u128),
    End,
}

/// The links `from` lays for test ids `ids`: each id leads to the next, the
/// nil id to the first, and the last id to the end.
pub open spec fn chain_links(ids: Seq<u128>) -> Map<u128, TestcaseState> {
    if ids.len() == 0 {
        Map::empty()
    } else {
        link_prefix(ids, (ids.len() - 1) as nat).insert(0, TestcaseState::Next(ids[0])).insert(
            ids.last(),
            TestcaseState::End,
        )
    }
}

/// The links from each of the first `k` ids to the one after it.
pub open spec fn link_prefix(ids: Seq<u128>, k: nat) -> Map<u128, TestcaseState>
    decreases k,
{
    if k == 0 {
        Map::empty()
    } else {
        link_prefix(ids, (k - 1) as nat).insert(ids[k - 1], TestcaseState::Next(ids[k as int]))
    }
}

/// The test files of the first `k` ids, later ids overriding earlier equal ones.
pub open spec fn test_table<P>(ids: Seq<u128>, ins: Seq<P>, outs: Seq<P>, k: nat) -> Map<
    u128,
    (P, P),
>
    decreases k,
{
    if k == 0 {
        Map::empty()
    } else {
        test_table(ids, ins, outs, (k - 1) as nat).insert(ids[k - 1], (ins[k - 1], outs[k - 1]))
    }
}

/// `dst` holds clones of the values of `src`, in order.
pub open spec fn clones_of<P: Clone>(src: Seq<P>, dst: Seq<P>) -> bool {
    &&& dst.len() == src.len()
    &&& forall|i: int| 0 <= i < src.len() ==> vstd::pervasive::cloned(src[i], #[trigger] dst[i])
}

/// One call of `next` from position `cur`: the new position and the id given.
pub open spec fn step(links: Map<u128, TestcaseState>, cur: u128) -> (u128, u128) {
    match links.get(cur) {
        Some(TestcaseState::Next(u)) => (u, u),
        _ => (cur, 0),
    }
}

/// The ids that `k` calls of `next` give, starting from position `cur`.
pub open spec fn walk(links: Map<u128, TestcaseState>, cur: u128, k: nat) -> Seq<u128>
    decreases k,
{
    if k == 0 {
        Seq::empty()
    } else {
        let (c, out) = step(links, cur);
        seq![out].add(walk(links, c, (k - 1) as nat))
    }
}

/// Gives the test cases of a judge one at a time. Not an iterator: `next`
/// gives the nil id once the tests are over.
pub struct TestcaseManager<P> {
    tests: HashMap<u128, (P, P)>,
    uuid_map: HashMap<u128, TestcaseState>,
    pub cur: u128,
}

impl<P> TestcaseManager<P> {
    /// The input and output files of each test id.
    pub closed spec fn tests(&self) -> Map<u128, (P, P)> {
        self.tests@
    }

    /// The id of the current test, nil before the first: the field `cur`.
    pub closed spec fn position(&self) -> u128 {
        self.cur
    }

    /// Where each test id leads.
    pub closed spec fn links(&self) -> Map<u128, TestcaseState> {
        self.uuid_map@
    }

    /// Every test the links lead to has its files.
    pub open spec fn wf(&self) -> bool {
        forall|k: u128|
            #[trigger] self.links().contains_key(k) ==> match self.links()[k] {
                TestcaseState::Next(u) => self.tests().contains_key(u),
                TestcaseState::End => true,
            }
    }

    /// `self` is what `from` builds for the files `stdin`, `stdout` when
    /// the tests get ids `ids`.
    pub open spec fn built_from(self, stdin: Seq<P>, stdout: Seq<P>, ids: Seq<u128>) -> bool
        where P: Clone
    {
        &&& self.position() == 0
        &&& self.links() == chain_links(ids)
        &&& exists|ins: Seq<P>, outs: Seq<P>|
            clones_of(stdin, ins) && clones_of(stdout, outs) && self.tests() == test_table(
                ids,
                ins,
                outs,
                ids.len(),
            )
    }
}

/// Whether `id`, read as a UUID, has version 4 and the variant binary 10.
pub open spec fn version_four_id(id: u128) -> bool {
    &&& (id >> 76u128) & 0xfu128 == 4u128
    &&& (id >> 62u128) & 0x3u128 == 2u128
}

/// Calls `uuid::Uuid::new_v4` and gives the id as its 128-bit value. The
/// id is random; what holds of every outcome is that its version field
/// reads 4 and its variant field reads binary 10, as `new_v4` sets them.
#[verifier::external_body]
fn fresh_test_id() -> (id: u128)
    ensures
        (id >> 76u128) & 0xfu128 == 4u128,
        (id >> 62u128) & 0x3u128 == 2u128,
{
    uuid::Uuid::new_v4().as_u128()
}

/// The version-4 id numbered `k`: `k` spread over the bits that a
/// version-4 UUID leaves free, with the version and variant fields set.
spec fn numbered_id(k: u64) -> u128 {
    ((k as u128) & 0x3fff_ffff_ffff_ffffu128) | (((k as u128) >> 62u128) << 64u128)
        | 0x4000_8000_0000_0000_0000u128
}

/// The number a `numbered_id` was made from.
spec fn id_number(id: u128) -> u128 {
    (id & 0x3fff_ffff_ffff_ffffu128) | (((id >> 64u128) & 0x3u128) << 62u128)
}

proof fn lemma_numbered_id(k: u64)
    ensures
        version_four_id(numbered_id(k)),
        id_number(numbered_id(k)) == k as u128,
{
    assert(((((k as u128) & 0x3fff_ffff_ffff_ffffu128) | (((k as u128) >> 62u128) << 64u128)
        | 0x4000_8000_0000_0000_0000u128) >> 76u128) & 0xfu128 == 4u128) by (bit_vector);
    assert(((((k as u128) & 0x3fff_ffff_ffff_ffffu128) | (((k as u128) >> 62u128) << 64u128)
        | 0x4000_8000_0000_0000_0000u128) >> 62u128) & 0x3u128 == 2u128) by (bit_vector);
    assert(((((k as u128) & 0x3fff_ffff_ffff_ffffu128) | (((k as u128) >> 62u128) << 64u128)
        | 0x4000_8000_0000_0000_0000u128) & 0x3fff_ffff_ffff_ffffu128) | ((((((k as u128)
        & 0x3fff_ffff_ffff_ffffu128) | (((k as u128) >> 62u128) << 64u128)
        | 0x4000_8000_0000_0000_0000u128) >> 64u128) & 0x3u128) << 62u128) == k as u128)
        by (bit_vector);
}

/// Whether `id` is among `ids`.
fn holds_id(ids: &Vec<u128>, id: u128) -> (b: bool)
    ensures
        b == ids@.contains(id),
{
    for i in 0..ids.len()
        invariant
            forall|j: int| 0 <= j < i ==> ids@[j] != id,
    {
        if ids[i] == id {
            return true;
        }
    }
    false
}

/// A version-4 id that is not among `taken`: the first numbered one free.
fn spare_id(taken: &Vec<u128>) -> (id: u128)
    ensures
        version_four_id(id),
        !taken@.contains(id),
{
    let mut k: u64 = 0;
    let count: usize = taken.len();
    let ghost mut found: Set<u128> = Set::empty();
    proof {
        broadcast use vstd::seq_lib::seq_to_set_is_finite;
        taken@.lemma_cardinality_of_set();
    }
    loop
        invariant
            count == taken@.len(),
            found.finite(),
            found.len() == k,
            found.subset_of(taken@.to_set()),
            taken@.to_set().finite(),
            taken@.to_set().len() <= taken@.len(),
            forall|c: u128| #[trigger] found.contains(c) ==> id_number(c) < k,
        decreases taken@.len() - k,
    {
        let c: u128 = ((k as u128) & 0x3fff_ffff_ffff_ffffu128) | (((k as u128) >> 62u128) << 64u128)
            | 0x4000_8000_0000_0000_0000u128;
        proof {
            lemma_numbered_id(k);
            assert(c == numbered_id(k));
        }
        if !holds_id(taken, c) {
            return c;
        }
        proof {
            assert(!found.contains(c));
            assert(taken@.to_set().contains(c));
            found = found.insert(c);
            vstd::set_lib::lemma_len_subset(found, taken@.to_set());
            assert(k + 1 <= count);
        }
        k = k + 1;
    }
}

impl<P: Clone> TestcaseManager<P> {
    /// The manager for test files `stdin[i]`, `stdout[i]` under ids `ids[i]`.
    pub fn from_ids(stdin: &[P], stdout: &[P], ids: &[u128]) -> (m: TestcaseManager<P>)
        requires
            stdin@.len() == stdout@.len(),
            ids@.len() == stdin@.len(),
        ensures
            m.built_from(stdin@, stdout@, ids@),
            m.wf(),
    {
        let mut testman = TestcaseManager {
            tests: HashMap::new(),
            uuid_map: HashMap::new(),
            cur: 0,
        };
        let n = stdin.len();
        let ghost mut ins: Seq<P> = Seq::empty();
        let ghost mut outs: Seq<P> = Seq::empty();
        for i in 0..n
            invariant
                n == stdin@.len(),
                n == stdout@.len(),
                n == ids@.len(),
                testman.cur == 0,
                testman.uuid_map@ == Map::<u128, TestcaseState>::empty(),
                ins.len() == i,
                outs.len() == i,
                forall|k: int| 0 <= k < i ==> vstd::pervasive::cloned(stdin@[k], #[trigger] ins[k]),
                forall|k: int| 0 <= k < i ==> vstd::pervasive::cloned(stdout@[k], #[trigger] outs[k]),
                testman.tests@ == test_table(ids@, ins, outs, i as nat),
        {
            let a = stdin[i].clone();
            let b = stdout[i].clone();
            testman.tests.insert(ids[i], (a, b));
            proof {
                let ins0 = ins;
                let outs0 = outs;
                ins = ins.push(a);
                outs = outs.push(b);
                assert(test_table(ids@, ins, outs, i as nat) == test_table(ids@, ins0, outs0, i as nat))
                    by {
                    lemma_test_table_prefix(ids@, ins0, outs0, ins, outs, i as nat);
                }
            }
        }
        let ghost tests_done = testman.tests@;
        if n > 0 {
            for i in 0..(n - 1)
                invariant
                    n == ids@.len(),
                    n > 0,
                    testman.cur == 0,
                    testman.tests@ == tests_done,
                    testman.uuid_map@ == link_prefix(ids@, i as nat),
            {
                testman.uuid_map.insert(ids[i], TestcaseState::Next(ids[i + 1]));
            }
            testman.uuid_map.insert(testman.cur, TestcaseState::Next(ids[0]));
            testman.uuid_map.insert(ids[n - 1], TestcaseState::End);
        }
        proof {
            if n == 0 {
                assert(testman.uuid_map@ == chain_links(ids@));
            }
            assert(clones_of(stdin@, ins));
            assert(clones_of(stdout@, outs));
            assert(testman.tests@ == test_table(ids@, ins, outs, ids@.len()));
            assert(testman.uuid_map@ == chain_links(ids@));
            assert(testman.position() == 0);
            lemma_chain_targets_have_tests(ids@, ins, outs);
        }
        testman
    }

    /// The manager for test files `stdin[i]`, `stdout[i]`, each test under
    /// a fresh random version-4 id. Should a draw repeat an id already
    /// given, the test gets instead the first numbered version-4 id not yet
    /// given, so that no two tests share an id.
    pub fn from(stdin: &[P], stdout: &[P]) -> (m: TestcaseManager<P>)
        requires
            stdin@.len() == stdout@.len(),
        ensures
            exists|ids: Seq<u128>|
                ids.len() == stdin@.len() && (forall|i: int|
                    0 <= i < ids.len() ==> #[trigger] version_four_id(ids[i]) && ids[i] != 0)
                    && (forall|a: int, b: int| 0 <= a < b < ids.len() ==> ids[a] != ids[b])
                    && m.built_from(stdin@, stdout@, ids),
            m.wf(),
    {
        let n = stdin.len();
        let mut uuids: Vec<u128> = Vec::new();
        for i in 0..n
            invariant
                uuids@.len() == i,
                forall|k: int|
                    0 <= k < i ==> version_four_id(#[trigger] uuids@[k]) && uuids@[k] != 0,
                forall|a: int, b: int| 0 <= a < b < i ==> uuids@[a] != uuids@[b],
        {
            let drawn = fresh_test_id();
            let id = if holds_id(&uuids, drawn) {
                spare_id(&uuids)
            } else {
                drawn
            };
            proof {
                assert(version_four_id(id));
                lemma_versioned_id_nonzero(id);
            }
            let ghost before = uuids@;
            uuids.push(id);
            proof {
                assert(uuids@[i as int] == id);
                assert(!before.contains(id));
                assert forall|a: int, b: int| 0 <= a < b < i + 1 implies uuids@[a] != uuids@[b] by {
                    if b == i {
                        assert(before[a] == uuids@[a]);
                    }
                }
            }
        }
        proof {
            assert(forall|i: int|
                0 <= i < uuids@.len() ==> #[trigger] version_four_id(uuids@[i]) && uuids@[i] != 0) by {
                assert forall|i: int| 0 <= i < uuids@.len() implies #[trigger] version_four_id(
                    uuids@[i],
                ) && uuids@[i] != 0 by {
                    assert(version_four_id(uuids@[i]));
                }
            }
        }
        Self::from_ids(stdin, stdout, uuids.as_slice())
    }
}

impl<P> TestcaseManager<P> {
    /// Moves to the test after the current one and gives its id, or gives
    /// the nil id and stays put when there is none.
    pub fn next(&mut self) -> (r: u128)
        ensures
            (final(self).position(), r) == step(old(self).links(), old(self).position()),
            final(self).links() == old(self).links(),
            final(self).tests() == old(self).tests(),
            old(self).wf() ==> final(self).wf(),
    {
        match self.uuid_map.get(&self.cur) {
            Some(TestcaseState::Next(uuid_next)) => {
                let u = *uuid_next;
                self.cur = u;
                u
            },
            _ => 0,
        }
    }

    /// The id of the current test, nil before the first.
    pub fn current(&self) -> (c: u128)
        ensures
            c == self.position(),
    {
        self.cur
    }

    /// The input and output files of test `test_uuid`.
    pub fn get(&self, test_uuid: u128) -> (r: (&P, &P))
        requires
            self.tests().contains_key(test_uuid),
        ensures
            (*r.0, *r.1) == self.tests()[test_uuid],
    {
        let pair = self.tests.get(&test_uuid).unwrap();
        (&pair.0, &pair.1)
    }
}

proof fn lemma_link_prefix(ids: Seq<u128>, k: nat)
    requires
        k < ids.len(),
        forall|i: int, j: int| 0 <= i < j < ids.len() ==> ids[i] != ids[j],
        forall|i: int| 0 <= i < ids.len() ==> ids[i] != 0,
    ensures
        forall|i: int|
            0 <= i < k ==> #[trigger] link_prefix(ids, k).get(ids[i]) == Some(
                TestcaseState::Next(ids[i + 1]),
            ),
        forall|i: int| k <= i < ids.len() ==> !link_prefix(ids, k).contains_key(#[trigger] ids[i]),
        !link_prefix(ids, k).contains_key(0),
    decreases k,
{
    if k > 0 {
        lemma_link_prefix(ids, (k - 1) as nat);
        let prev = link_prefix(ids, (k - 1) as nat);
        let cur = link_prefix(ids, k);
        assert forall|i: int| 0 <= i < k implies #[trigger] cur.get(ids[i]) == Some(
            TestcaseState::Next(ids[i + 1]),
        ) by {
            if i < k - 1 {
                assert(ids[i] != ids[k - 1]);
                assert(prev.get(ids[i]) == Some(TestcaseState::Next(ids[i + 1])));
            }
        }
    }
}

/// Where the walk stands after `j` calls of `next` on a fresh manager.
pub open spec fn position_after(ids: Seq<u128>, j: int) -> u128 {
    if j == 0 {
        0
    } else {
        ids[j - 1]
    }
}

proof fn lemma_walk_stays(links: Map<u128, TestcaseState>, cur: u128, k: nat)
    requires
        !(links.get(cur) matches Some(TestcaseState::Next(_))),
    ensures
        walk(links, cur, k) == Seq::new(k, |i: int| 0u128),
    decreases k,
{
    if k > 0 {
        lemma_walk_stays(links, cur, (k - 1) as nat);
        assert(walk(links, cur, k) =~= Seq::new(k, |i: int| 0u128));
    }
}

proof fn lemma_walk_from(ids: Seq<u128>, j: int, extra: nat)
    requires
        0 <= j <= ids.len(),
        forall|a: int, b: int| 0 <= a < b < ids.len() ==> ids[a] != ids[b],
        forall|a: int| 0 <= a < ids.len() ==> ids[a] != 0,
    ensures
        walk(chain_links(ids), position_after(ids, j), (ids.len() - j + extra) as nat) == ids.subrange(
            j,
            ids.len() as int,
        ) + Seq::new(extra, |i: int| 0u128),
    decreases ids.len() - j,
{
    let n = ids.len();
    let links = chain_links(ids);
    let c = position_after(ids, j);
    if n == 0 {
        assert(links.get(0) == None::<TestcaseState>);
        lemma_walk_stays(links, c, extra);
        assert(ids.subrange(0, 0) + Seq::new(extra, |i: int| 0u128) =~= Seq::new(
            extra,
            |i: int| 0u128,
        ));
    } else {
        lemma_link_prefix(ids, (n - 1) as nat);
        if j == n {
            assert(links.get(ids[n - 1]) == Some(TestcaseState::End));
            lemma_walk_stays(links, c, extra);
            assert(ids.subrange(j, n as int) + Seq::new(extra, |i: int| 0u128) =~= Seq::new(
                extra,
                |i: int| 0u128,
            ));
        } else {
            if j == 0 {
                assert(links.get(0) == Some(TestcaseState::Next(ids[0])));
            } else {
                assert(link_prefix(ids, (n - 1) as nat).get(ids[j - 1]) == Some(
                    TestcaseState::Next(ids[j]),
                ));
                assert(ids[j - 1] != 0);
                assert(ids[j - 1] != ids[n - 1]);
                assert(links.get(ids[j - 1]) == Some(TestcaseState::Next(ids[j])));
            }
            assert(step(links, c) == (ids[j], ids[j]));
            lemma_walk_from(ids, j + 1, extra);
            assert(position_after(ids, j + 1) == ids[j]);
            assert(walk(links, c, (n - j + extra) as nat) =~= ids.subrange(j, n as int) + Seq::new(
                extra,
                |i: int| 0u128,
            ));
        }
    }
}

/// With distinct, non-nil test ids, a fresh manager gives each test id
/// once, in order, and the nil id ever after; the files of each id are those
/// it was given.
pub proof fn lemma_tests_in_order<P>(ids: Seq<u128>, ins: Seq<P>, outs: Seq<P>, extra: nat)
    requires
        forall|i: int, j: int| 0 <= i < j < ids.len() ==> ids[i] != ids[j],
        forall|i: int| 0 <= i < ids.len() ==> ids[i] != 0,
    ensures
        walk(chain_links(ids), 0, ids.len() + extra) == ids + Seq::new(extra, |i: int| 0u128),
        forall|i: int|
            0 <= i < ids.len() ==> test_table(ids, ins, outs, ids.len()).contains_key(
                #[trigger] ids[i],
            ) && test_table(ids, ins, outs, ids.len())[ids[i]] == (ins[i], outs[i]),
{
    lemma_walk_from(ids, 0, extra);
    assert(ids.subrange(0, ids.len() as int) =~= ids);
    assert forall|i: int| 0 <= i < ids.len() implies test_table(
        ids,
        ins,
        outs,
        ids.len(),
    ).contains_key(#[trigger] ids[i]) && test_table(ids, ins, outs, ids.len())[ids[i]] == (
        ins[i],
        outs[i],
    ) by {
        lemma_test_table_at(ids, ins, outs, ids.len(), i);
    }
}

/// A manager built over test files `stdin`, `stdout` under distinct,
/// non-nil ids, as `from` builds one, gives each test id once, in file
/// order, each with the files of its place, and then only the nil id.
pub proof fn lemma_built_manager_sends_all<P: Clone>(
    m: TestcaseManager<P>,
    stdin: Seq<P>,
    stdout: Seq<P>,
    ids: Seq<u128>,
    extra: nat,
)
    requires
        m.built_from(stdin, stdout, ids),
        ids.len() == stdin.len(),
        stdout.len() == stdin.len(),
        forall|i: int| 0 <= i < ids.len() ==> ids[i] != 0,
        forall|a: int, b: int| 0 <= a < b < ids.len() ==> ids[a] != ids[b],
    ensures
        walk(m.links(), m.position(), ids.len() + extra) == ids + Seq::new(extra, |i: int| 0u128),
        forall|i: int|
            0 <= i < ids.len() ==> m.tests().contains_key(#[trigger] ids[i])
                && vstd::pervasive::cloned(stdin[i], m.tests()[ids[i]].0)
                && vstd::pervasive::cloned(stdout[i], m.tests()[ids[i]].1),
{
    let (ins, outs) = choose|ins: Seq<P>, outs: Seq<P>|
        clones_of(stdin, ins) && clones_of(stdout, outs) && m.tests() == test_table(
            ids,
            ins,
            outs,
            ids.len(),
        );
    lemma_tests_in_order(ids, ins, outs, extra);
    assert forall|i: int| 0 <= i < ids.len() implies m.tests().contains_key(#[trigger] ids[i])
        && vstd::pervasive::cloned(stdin[i], m.tests()[ids[i]].0)
        && vstd::pervasive::cloned(stdout[i], m.tests()[ids[i]].1) by {
        assert(vstd::pervasive::cloned(stdin[i], ins[i]));
        assert(vstd::pervasive::cloned(stdout[i], outs[i]));
    }
}

proof fn lemma_test_table_at<P>(ids: Seq<u128>, ins: Seq<P>, outs: Seq<P>, k: nat, i: int)
    requires
        0 <= i < k <= ids.len(),
        forall|a: int, b: int| 0 <= a < b < ids.len() ==> ids[a] != ids[b],
    ensures
        test_table(ids, ins, outs, k).contains_key(ids[i]),
        test_table(ids, ins, outs, k)[ids[i]] == (ins[i], outs[i]),
    decreases k,
{
    if i < k - 1 {
        assert(ids[i] != ids[k - 1]);
        lemma_test_table_at(ids, ins, outs, (k - 1) as nat, i);
    }
}

/// `i` is the last place of `ids` that holds `ids[i]`.
spec fn last_at(ids: Seq<u128>, i: int) -> bool {
    &&& 0 <= i < ids.len()
    &&& forall|j: int| i < j < ids.len() ==> ids[j] != ids[i]
}

/// The position a walk stands on after reaching place `i` of `ids`, or
/// before the first test when `i` is negative.
spec fn place(ids: Seq<u128>, i: int) -> u128 {
    if i < 0 {
        0
    } else {
        ids[i]
    }
}

proof fn lemma_last_exists(ids: Seq<u128>, p: int)
    requires
        0 <= p < ids.len(),
    ensures
        exists|i: int| #![trigger last_at(ids, i)] p <= i && last_at(ids, i) && ids[i] == ids[p],
    decreases ids.len() - p,
{
    if exists|j: int| p < j < ids.len() && ids[j] == ids[p] {
        let j = choose|j: int| p < j < ids.len() && ids[j] == ids[p];
        lemma_last_exists(ids, j);
        let i = choose|i: int| #![trigger last_at(ids, i)] j <= i && last_at(ids, i) && ids[i] == ids[j];
        assert(p <= i && last_at(ids, i) && ids[i] == ids[p]);
    } else {
        assert(last_at(ids, p));
        assert(p <= p && last_at(ids, p) && ids[p] == ids[p]);
    }
}

proof fn lemma_link_prefix_last(ids: Seq<u128>, k: nat, i: int)
    requires
        k < ids.len(),
        0 <= i < k,
        forall|j: int| i < j < k ==> ids[j] != ids[i],
    ensures
        link_prefix(ids, k).get(ids[i]) == Some(TestcaseState::Next(ids[i + 1])),
    decreases k,
{
    if i < k - 1 {
        lemma_link_prefix_last(ids, (k - 1) as nat, i);
    }
}

/// The first `m` ids of `w` are pairwise distinct and non-nil, and the
/// rest are nil.
pub open spec fn distinct_then_nil(w: Seq<u128>, m: int) -> bool {
    &&& 0 <= m <= w.len()
    &&& forall|a: int, b: int| 0 <= a < b < m ==> w[a] != w[b]
    &&& forall|a: int| 0 <= a < m ==> w[a] != 0
    &&& forall|a: int| m <= a < w.len() ==> w[a] == 0
}

proof fn lemma_walk_len(links: Map<u128, TestcaseState>, cur: u128, k: nat)
    ensures
        walk(links, cur, k).len() == k,
    decreases k,
{
    if k > 0 {
        lemma_walk_len(links, step(links, cur).0, (k - 1) as nat);
    }
}

proof fn lemma_walk_distinct_from(ids: Seq<u128>, i: int, k: nat)
    requires
        -1 <= i < ids.len(),
        i >= 0 ==> last_at(ids, i),
        forall|j: int| 0 <= j < ids.len() ==> ids[j] != 0,
    ensures
        ({
            let w = walk(chain_links(ids), place(ids, i), k);
            &&& w.len() == k
            &&& forall|a: int|
                0 <= a < k && w[a] != 0 ==> exists|j: int|
                    i < j < ids.len() && #[trigger] ids[j] == w[a]
            &&& exists|m: int| distinct_then_nil(w, m)
        }),
    decreases ids.len() - i,
{
    let n = ids.len();
    let links = chain_links(ids);
    let c = place(ids, i);
    let w = walk(links, c, k);
    lemma_walk_len(links, c, k);
    if i == n - 1 || n == 0 {
        if n == 0 {
            assert(links.get(c) == None::<TestcaseState>);
        } else {
            assert(c == ids.last());
            assert(links.get(c) == Some(TestcaseState::End));
        }
        lemma_walk_stays(links, c, k);
        assert(w == Seq::new(k, |a: int| 0u128));
        assert(distinct_then_nil(w, 0));
    } else {
        if i < 0 {
            assert(links.get(0) == Some(TestcaseState::Next(ids[0])));
        } else {
            lemma_link_prefix_last(ids, (n - 1) as nat, i);
            assert(ids[i] != ids[n - 1]);
            assert(links.get(c) == Some(TestcaseState::Next(ids[i + 1])));
        }
        let u = ids[i + 1];
        assert(step(links, c) == (u, u));
        if k == 0 {
            assert(distinct_then_nil(w, 0));
        } else {
            lemma_last_exists(ids, i + 1);
            let l = choose|l: int| #![trigger last_at(ids, l)] i + 1 <= l && last_at(ids, l) && ids[l] == ids[i + 1];
            assert(place(ids, l) == u);
            lemma_walk_distinct_from(ids, l, (k - 1) as nat);
            let r = walk(links, u, (k - 1) as nat);
            assert(w == seq![u].add(r));
            let m1 = choose|m: int| distinct_then_nil(r, m);
            assert forall|a: int| 0 <= a < k && w[a] != 0 implies exists|j: int|
                i < j < ids.len() && #[trigger] ids[j] == w[a] by {
                if a == 0 {
                    assert(ids[i + 1] == w[0]);
                } else {
                    assert(w[a] == r[a - 1]);
                    let j = choose|j: int| l < j < ids.len() && #[trigger] ids[j] == r[a - 1];
                    assert(ids[j] == w[a]);
                }
            }
            assert forall|a: int, b: int| 0 <= a < b < m1 + 1 implies w[a] != w[b] by {
                assert(w[b] == r[b - 1]);
                if a == 0 {
                    let j = choose|j: int| l < j < ids.len() && #[trigger] ids[j] == r[b - 1];
                    assert(ids[j] != ids[l]);
                } else {
                    assert(w[a] == r[a - 1]);
                }
            }
            assert forall|a: int| 0 <= a < m1 + 1 implies w[a] != 0 by {
                if a > 0 {
                    assert(w[a] == r[a - 1]);
                }
            }
            assert forall|a: int| m1 + 1 <= a < w.len() implies w[a] == 0 by {
                assert(w[a] == r[a - 1]);
            }
            assert(distinct_then_nil(w, m1 + 1));
        }
    }
}

/// Whatever non-nil ids its tests get, a fresh manager never gives an id
/// twice: `k` calls of `next` give test ids, pairwise distinct, and then
/// only the nil id.
pub proof fn lemma_tests_never_repeat(ids: Seq<u128>, k: nat)
    requires
        forall|i: int| 0 <= i < ids.len() ==> ids[i] != 0,
    ensures
        walk(chain_links(ids), 0, k).len() == k,
        forall|a: int|
            0 <= a < k && #[trigger] walk(chain_links(ids), 0, k)[a] != 0 ==> ids.contains(
                walk(chain_links(ids), 0, k)[a],
            ),
        exists|m: int| distinct_then_nil(walk(chain_links(ids), 0, k), m),
{
    lemma_walk_distinct_from(ids, -1, k);
    let w = walk(chain_links(ids), 0, k);
    assert forall|a: int| 0 <= a < k && #[trigger] w[a] != 0 implies ids.contains(w[a]) by {
        let j = choose|j: int| -1 < j < ids.len() && #[trigger] ids[j] == w[a];
        assert(ids[j] == w[a]);
    }
}

proof fn lemma_test_table_has<P>(ids: Seq<u128>, ins: Seq<P>, outs: Seq<P>, k: nat, i: int)
    requires
        0 <= i < k,
    ensures
        test_table(ids, ins, outs, k).contains_key(ids[i]),
    decreases k,
{
    if i < k - 1 {
        lemma_test_table_has(ids, ins, outs, (k - 1) as nat, i);
    }
}

proof fn lemma_link_prefix_targets(ids: Seq<u128>, k: nat, x: u128)
    requires
        link_prefix(ids, k).contains_key(x),
    ensures
        link_prefix(ids, k)[x] matches TestcaseState::Next(u) && exists|i: int|
            1 <= i <= k && #[trigger] ids[i] == u,
    decreases k,
{
    if k > 0 && x != ids[k - 1] {
        lemma_link_prefix_targets(ids, (k - 1) as nat, x);
    } else {
        assert(ids[k as int] == ids[k as int]);
    }
}

proof fn lemma_chain_targets_have_tests<P>(ids: Seq<u128>, ins: Seq<P>, outs: Seq<P>)
    ensures
        forall|k: u128|
            #[trigger] chain_links(ids).contains_key(k) ==> match chain_links(ids)[k] {
                TestcaseState::Next(u) => test_table(ids, ins, outs, ids.len()).contains_key(u),
                TestcaseState::End => true,
            },
{
    let n = ids.len();
    assert forall|k: u128| #[trigger] chain_links(ids).contains_key(k) implies match chain_links(
        ids,
    )[k] {
        TestcaseState::Next(u) => test_table(ids, ins, outs, n).contains_key(u),
        TestcaseState::End => true,
    } by {
        if n > 0 && k != ids.last() {
            if k == 0 {
                lemma_test_table_has(ids, ins, outs, n, 0);
            } else {
                lemma_link_prefix_targets(ids, (n - 1) as nat, k);
                let u = link_prefix(ids, (n - 1) as nat)[k]->Next_0;
                let i = choose|i: int| 1 <= i <= n - 1 && #[trigger] ids[i] == u;
                lemma_test_table_has(ids, ins, outs, n, i);
            }
        }
    }
}

proof fn lemma_versioned_id_nonzero(id: u128)
    requires
        (id >> 76u128) & 0xfu128 == 4u128,
    ensures
        id != 0,
{
    assert((id >> 76u128) & 0xfu128 == 4u128 ==> id != 0) by (bit_vector);
}

proof fn lemma_test_table_prefix<P>(
    ids: Seq<u128>,
    ins0: Seq<P>,
    outs0: Seq<P>,
    ins: Seq<P>,
    outs: Seq<P>,
    k: nat,
)
    requires
        k <= ins0.len(),
        k <= outs0.len(),
        ins0.len() <= ins.len(),
        outs0.len() <= outs.len(),
        forall|i: int| 0 <= i < ins0.len() ==> ins[i] == ins0[i],
        forall|i: int| 0 <= i < outs0.len() ==> outs[i] == outs0[i],
    ensures
        test_table(ids, ins, outs, k) == test_table(ids, ins0, outs0, k),
    decreases k,
{
    if k > 0 {
        lemma_test_table_prefix(ids, ins0, outs0, ins, outs, (k - 1) as nat);
    }
}

} // verus!
