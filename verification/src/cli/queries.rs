//! Which queries the tool makes, and what their results amount to for each host.
//!
//! A host is asked on both protocols unless the user picks one. A success is shown as soon as it
//! arrives. A failure is kept back: if the other protocol succeeds it is dropped, and only where
//! every protocol has failed are the failures reported.
use vstd::prelude::*;

use crate::text;

verus! {

/// A protocol to ask a host on.
#[derive(Debug, Clone, Copy, PartialEq, Eq, Structural)]
pub enum Edition {
    Java,
    Bedrock,
}

impl Edition {
    /// The edition's name in a report of a failure.
    pub open spec fn name(self) -> Seq<char> {
        match self {
            Edition::Java => "java"@,
            Edition::Bedrock => "bedrock"@,
        }
    }

    /// The edition's name in a report of a failure.
    pub fn label(&self) -> (r: String)
        ensures
            r@ == self.name(),
    {
        match self {
            Edition::Java => text::copy_text("java"),
            Edition::Bedrock => text::copy_text("bedrock"),
        }
    }
}

// ==================== The plan ====================

/// The protocols to ask a host on.
pub open spec fn editions(java: bool, bedrock: bool) -> Seq<Edition> {
    if java {
        seq![Edition::Java]
    } else if bedrock {
        seq![Edition::Bedrock]
    } else {
        seq![Edition::Java, Edition::Bedrock]
    }
}

/// The protocols to ask a host on.
pub fn asked_on(java: bool, bedrock: bool) -> (r: Vec<Edition>)
    ensures
        r@ == editions(java, bedrock),
{
    let mut out: Vec<Edition> = Vec::new();
    if java || !bedrock {
        out.push(Edition::Java);
    }
    if !java {
        out.push(Edition::Bedrock);
    }
    assert(out@ == editions(java, bedrock));
    out
}

/// The queries to make: each host on each protocol, in the order of the hosts.
pub open spec fn planned(hosts: Seq<Seq<char>>, java: bool, bedrock: bool) -> Seq<
    (Seq<char>, Edition),
>
    decreases hosts.len(),
{
    if hosts.len() == 0 {
        seq![]
    } else {
        planned(hosts.drop_last(), java, bedrock) + editions(java, bedrock).map_values(
            |e: Edition| (hosts.last(), e),
        )
    }
}

/// What a list of queries holds.
pub open spec fn plan_view(plan: Seq<(String, Edition)>) -> Seq<(Seq<char>, Edition)> {
    plan.map_values(|q: (String, Edition)| (q.0@, q.1))
}

/// The queries to make.
pub fn plan(hosts: &Vec<String>, java: bool, bedrock: bool) -> (r: Vec<(String, Edition)>)
    ensures
        plan_view(r@) == planned(text::texts(hosts@), java, bedrock),
{
    let ghost all = text::texts(hosts@);
    let mut out: Vec<(String, Edition)> = Vec::new();
    let mut i: usize = 0;
    assert(all.take(0) == Seq::<Seq<char>>::empty());
    assert(plan_view(out@) == Seq::<(Seq<char>, Edition)>::empty());
    while i < hosts.len()
        invariant
            i <= hosts@.len(),
            all == text::texts(hosts@),
            plan_view(out@) == planned(all.take(i as int), java, bedrock),
        decreases hosts@.len() - i,
    {
        let ghost before = plan_view(out@);
        let ghost host = hosts@[i as int]@;
        proof {
            assert(all.take(i as int + 1).drop_last() == all.take(i as int));
            assert(all.take(i as int + 1).last() == host);
        }
        if java {
            out.push((text::copy_text(hosts[i].as_str()), Edition::Java));
        } else if bedrock {
            out.push((text::copy_text(hosts[i].as_str()), Edition::Bedrock));
        } else {
            out.push((text::copy_text(hosts[i].as_str()), Edition::Java));
            out.push((text::copy_text(hosts[i].as_str()), Edition::Bedrock));
        }
        proof {
            let more = editions(java, bedrock).map_values(|e: Edition| (host, e));
            assert(plan_view(out@) == before + more);
        }
        i = i + 1;
    }
    assert(all.take(i as int) == all);
    out
}

// ==================== The bookkeeping ====================

/// A host some of whose queries are still running.
pub struct Pending {
    /// The host.
    pub host: String,
    /// How many queries are still running.
    pub remaining: u64,
    /// Whether one has succeeded.
    pub had_success: bool,
    /// The failures so far.
    pub failures: Vec<(Edition, String)>,
}

/// What a [`Pending`] holds.
#[verifier::ext_equal]
pub struct PendingView {
    pub host: Seq<char>,
    pub remaining: nat,
    pub had_success: bool,
    pub failures: Seq<(Edition, Seq<char>)>,
}

/// What a list of failures holds.
pub open spec fn failure_views(list: Seq<(Edition, String)>) -> Seq<(Edition, Seq<char>)> {
    list.map_values(|f: (Edition, String)| (f.0, f.1@))
}

impl View for Pending {
    type V = PendingView;

    open spec fn view(&self) -> PendingView {
        PendingView {
            host: self.host@,
            remaining: self.remaining as nat,
            had_success: self.had_success,
            failures: failure_views(self.failures@),
        }
    }
}

/// A host none of whose queries has ended.
pub open spec fn untouched(host: Seq<char>, count: nat) -> PendingView {
    PendingView { host, remaining: count, had_success: false, failures: seq![] }
}

/// The hosts whose queries are running, and whether one has failed.
pub struct Board {
    hosts: Vec<Pending>,
    any_failed: bool,
}

/// What a [`Board`] holds.
#[verifier::ext_equal]
pub struct BoardView {
    pub hosts: Seq<PendingView>,
    pub any_failed: bool,
}

/// What a list of hosts holds.
pub open spec fn pending_views(list: Seq<Pending>) -> Seq<PendingView> {
    list.map_values(|p: Pending| p@)
}

impl View for Board {
    type V = BoardView;

    closed spec fn view(&self) -> BoardView {
        BoardView { hosts: pending_views(self.hosts@), any_failed: self.any_failed }
    }
}

/// Where a host stands in a list; its length where it does not.
pub open spec fn place(hosts: Seq<PendingView>, host: Seq<char>) -> int
    decreases hosts.len(),
{
    if hosts.len() == 0 || hosts[0].host == host {
        0
    } else {
        1 + place(hosts.drop_first(), host)
    }
}

/// What the list says of a host.
pub open spec fn entry(hosts: Seq<PendingView>, host: Seq<char>) -> Option<PendingView> {
    let i = place(hosts, host);
    if i < hosts.len() {
        Some(hosts[i])
    } else {
        None
    }
}

/// A list with a host entered; one that stands there already starts anew.
pub open spec fn registered(hosts: Seq<PendingView>, host: Seq<char>, count: nat) -> Seq<
    PendingView,
> {
    let i = place(hosts, host);
    if i < hosts.len() {
        hosts.update(i, untouched(host, count))
    } else {
        hosts.push(untouched(host, count))
    }
}

/// A list with all of the hosts entered.
pub open spec fn all_registered(hosts: Seq<Seq<char>>, count: nat) -> Seq<PendingView>
    decreases hosts.len(),
{
    if hosts.len() == 0 {
        seq![]
    } else {
        registered(all_registered(hosts.drop_last(), count), hosts.last(), count)
    }
}

/// What to do about a result.
#[derive(Debug)]
pub enum Verdict {
    /// Show the success.
    Show,
    /// Say nothing.
    Quiet,
    /// Every query of the host has failed: report these failures.
    Failed(Vec<(Edition, String)>),
}

/// What to do about a result.
#[verifier::ext_equal]
pub enum VerdictView {
    Show,
    Quiet,
    Failed(Seq<(Edition, Seq<char>)>),
}

impl View for Verdict {
    type V = VerdictView;

    open spec fn view(&self) -> VerdictView {
        match self {
            Verdict::Show => VerdictView::Show,
            Verdict::Quiet => VerdictView::Quiet,
            Verdict::Failed(list) => VerdictView::Failed(failure_views(list@)),
        }
    }
}

impl PendingView {
    /// The host after one more result; no error is a success.
    pub open spec fn after(self, edition: Edition, error: Option<Seq<char>>) -> PendingView {
        match error {
            None => PendingView {
                remaining: (self.remaining - 1) as nat,
                had_success: true,
                ..self
            },
            Some(m) => PendingView {
                remaining: (self.remaining - 1) as nat,
                failures: self.failures.push((edition, m)),
                ..self
            },
        }
    }
}

/// What to do about a result: the state of its host after it, and whether it was a success.
pub open spec fn verdict_of(now: PendingView, success: bool) -> VerdictView {
    if success {
        VerdictView::Show
    } else if now.remaining == 0 && !now.had_success {
        VerdictView::Failed(now.failures)
    } else {
        VerdictView::Quiet
    }
}

/// The board after a result, and what to do about it. A result of a host that is not on the board
/// changes nothing.
pub open spec fn reported(
    board: BoardView,
    host: Seq<char>,
    edition: Edition,
    error: Option<Seq<char>>,
) -> (BoardView, VerdictView) {
    let i = place(board.hosts, host);
    if i >= board.hosts.len() {
        (board, VerdictView::Quiet)
    } else {
        let now = board.hosts[i].after(edition, error);
        (
            BoardView {
                hosts: if now.remaining == 0 {
                    board.hosts.remove(i)
                } else {
                    board.hosts.update(i, now)
                },
                any_failed: board.any_failed || (now.remaining == 0 && !now.had_success),
            },
            verdict_of(now, error is None),
        )
    }
}

/// The hosts in a list that had no success.
pub open spec fn unanswered(hosts: Seq<PendingView>) -> Seq<Seq<char>>
    decreases hosts.len(),
{
    if hosts.len() == 0 {
        seq![]
    } else if hosts.last().had_success {
        unanswered(hosts.drop_last())
    } else {
        unanswered(hosts.drop_last()).push(hosts.last().host)
    }
}

/// The tool's exit code once no more results come: 0 if nothing has failed.
pub open spec fn final_code(board: BoardView) -> int {
    if board.any_failed || unanswered(board.hosts).len() > 0 {
        1
    } else {
        0
    }
}

/// The text of an optional error.
pub open spec fn error_view(error: Option<String>) -> Option<Seq<char>> {
    match error {
        Some(m) => Some(m@),
        None => None,
    }
}

proof fn lemma_place(hosts: Seq<PendingView>, host: Seq<char>, i: int)
    requires
        0 <= i <= hosts.len(),
        forall|k: int| 0 <= k < i ==> hosts[k].host != host,
        i < hosts.len() ==> hosts[i].host == host,
    ensures
        place(hosts, host) == i,
    decreases hosts.len(),
{
    if hosts.len() > 0 && i > 0 {
        assert(hosts[0].host != host);
        let rest = hosts.drop_first();
        assert forall|k: int| 0 <= k < i - 1 implies rest[k].host != host by {
            assert(rest[k] == hosts[k + 1]);
        }
        lemma_place(rest, host, i - 1);
    }
}

proof fn lemma_place_bounds(hosts: Seq<PendingView>, host: Seq<char>)
    ensures
        0 <= place(hosts, host) <= hosts.len(),
        forall|k: int| 0 <= k < place(hosts, host) ==> hosts[k].host != host,
        place(hosts, host) < hosts.len() ==> hosts[place(hosts, host)].host == host,
    decreases hosts.len(),
{
    if hosts.len() > 0 && hosts[0].host != host {
        let rest = hosts.drop_first();
        lemma_place_bounds(rest, host);
        assert forall|k: int| 0 <= k < place(hosts, host) implies hosts[k].host != host by {
            if k > 0 {
                assert(rest[k - 1] == hosts[k]);
            }
        }
    }
}

impl Board {
    /// Every host on the board has a query running, and stands there once.
    pub closed spec fn wf(&self) -> bool {
        on_board(self@.hosts)
    }

    fn find(&self, host: &str) -> (r: usize)
        ensures
            r == place(self@.hosts, host@),
            r <= self@.hosts.len(),
            self@.hosts.len() == self.hosts@.len(),
    {
        let mut i: usize = 0;
        while i < self.hosts.len()
            invariant
                i <= self.hosts@.len(),
                forall|k: int| 0 <= k < i ==> self@.hosts[k].host != host@,
            decreases self.hosts@.len() - i,
        {
            if text::same_text(self.hosts[i].host.as_str(), host) {
                proof {
                    assert(self@.hosts[i as int].host == host@);
                    lemma_place(self@.hosts, host@, i as int);
                }
                return i;
            }
            assert(self@.hosts[i as int].host != host@);
            i = i + 1;
        }
        proof {
            lemma_place(self@.hosts, host@, i as int);
        }
        i
    }

    /// Enters all hosts: one query each where the user picks a protocol, else two.
    pub fn new(hosts: &Vec<String>, java: bool, bedrock: bool) -> (r: Board)
        ensures
            r.wf(),
            r@ == (BoardView {
                hosts: all_registered(text::texts(hosts@), editions(java, bedrock).len()),
                any_failed: false,
            }),
    {
        let ghost all = text::texts(hosts@);
        let count: u64 = if java || bedrock {
            1
        } else {
            2
        };
        assert(count == editions(java, bedrock).len());
        let mut board = Board { hosts: Vec::new(), any_failed: false };
        let mut i: usize = 0;
        assert(all.take(0) == Seq::<Seq<char>>::empty());
        assert(board@.hosts == Seq::<PendingView>::empty());
        while i < hosts.len()
            invariant
                i <= hosts@.len(),
                all == text::texts(hosts@),
                1 <= count <= 2,
                board@.hosts == all_registered(all.take(i as int), count as nat),
                on_board(board@.hosts),
                !board@.any_failed,
            decreases hosts@.len() - i,
        {
            let ghost before = board@.hosts;
            let ghost host = hosts@[i as int]@;
            proof {
                assert(all.take(i as int + 1).drop_last() == all.take(i as int));
                assert(all.take(i as int + 1).last() == host);
                lemma_place_bounds(before, host);
                lemma_registered(before, host, count as nat);
            }
            let at = board.find(hosts[i].as_str());
            let fresh = Pending {
                host: text::copy_text(hosts[i].as_str()),
                remaining: count,
                had_success: false,
                failures: Vec::new(),
            };
            assert(fresh@ == untouched(host, count as nat));
            if at < board.hosts.len() {
                board.hosts[at] = fresh;
                assert(board@.hosts == before.update(at as int, untouched(host, count as nat)));
            } else {
                board.hosts.push(fresh);
                assert(board@.hosts == before.push(untouched(host, count as nat)));
            }
            i = i + 1;
        }
        assert(all.take(i as int) == all);
        board
    }

    /// Takes a result; no error is a success.
    pub fn report(&mut self, host: &str, edition: Edition, error: Option<String>) -> (r: Verdict)
        requires
            old(self).wf(),
        ensures
            final(self).wf(),
            (final(self)@, r@) == reported(old(self)@, host@, edition, error_view(error)),
    {
        let at = self.find(host);
        let ghost before = self@;
        let ghost failed = error_view(error);
        proof {
            lemma_place_bounds(before.hosts, host@);
        }
        if at >= self.hosts.len() {
            return Verdict::Quiet;
        }
        let mut state = self.hosts.remove(at);
        proof {
            assert(state@ == before.hosts[at as int]);
            assert(self@.hosts == before.hosts.remove(at as int));
            lemma_without(before.hosts, at as int);
        }
        let ghost now = before.hosts[at as int].after(edition, failed);
        state.remaining = state.remaining - 1;
        let success: bool = error.is_none();
        match error {
            None => {
                state.had_success = true;
            },
            Some(m) => {
                let ghost list = state.failures@;
                state.failures.push((edition, m));
                assert(failure_views(state.failures@) == failure_views(list).push((edition, m@)));
            },
        }
        assert(state@ == now);
        if state.remaining == 0 {
            if !state.had_success {
                self.any_failed = true;
                return Verdict::Failed(state.failures);
            }
        } else {
            let ghost rest = self@.hosts;
            self.hosts.insert(at, state);
            proof {
                assert(self@.hosts == rest.insert(at as int, now));
                assert(rest.insert(at as int, now) == before.hosts.update(at as int, now));
                lemma_updated(before.hosts, at as int, now);
            }
        }
        if success {
            Verdict::Show
        } else {
            Verdict::Quiet
        }
    }

    /// No more results come: gives the hosts whose queries ended without a result and had no
    /// success, and the tool's exit code, 0 if nothing has failed.
    pub fn finish(self) -> (r: (Vec<String>, i32))
        ensures
            text::texts(r.0@) == unanswered(self@.hosts),
            r.1 == final_code(self@),
            r.1 == (if self@.any_failed || unanswered(self@.hosts).len() > 0 {
                1i32
            } else {
                0i32
            }),
    {
        let ghost all = self@.hosts;
        let mut out: Vec<String> = Vec::new();
        let mut i: usize = 0;
        assert(all.take(0) == Seq::<PendingView>::empty());
        assert(text::texts(out@) == Seq::<Seq<char>>::empty());
        while i < self.hosts.len()
            invariant
                i <= self.hosts@.len(),
                all == self@.hosts,
                all == pending_views(self.hosts@),
                text::texts(out@) == unanswered(all.take(i as int)),
            decreases self.hosts@.len() - i,
        {
            let ghost before = text::texts(out@);
            proof {
                assert(all.take(i as int + 1).drop_last() == all.take(i as int));
                assert(all.take(i as int + 1).last() == self.hosts@[i as int]@);
            }
            if !self.hosts[i].had_success {
                out.push(text::copy_text(self.hosts[i].host.as_str()));
                assert(text::texts(out@) == before.push(self.hosts@[i as int].host@));
            }
            i = i + 1;
        }
        assert(all.take(i as int) == all);
        assert(text::texts(out@).len() == out@.len());
        let code: i32 = if self.any_failed || out.len() > 0 {
            1
        } else {
            0
        };
        (out, code)
    }
}

/// Every host in the list has a query running, and stands there once.
pub open spec fn on_board(hosts: Seq<PendingView>) -> bool {
    &&& forall|i: int| 0 <= i < hosts.len() ==> (#[trigger] hosts[i]).remaining > 0
    &&& forall|i: int, j: int|
        0 <= i < j < hosts.len() ==> (#[trigger] hosts[i]).host != (#[trigger] hosts[j]).host
}

proof fn lemma_registered(hosts: Seq<PendingView>, host: Seq<char>, count: nat)
    requires
        on_board(hosts),
        count > 0,
    ensures
        on_board(registered(hosts, host, count)),
{
    lemma_place_bounds(hosts, host);
}

proof fn lemma_without(hosts: Seq<PendingView>, i: int)
    requires
        on_board(hosts),
        0 <= i < hosts.len(),
    ensures
        on_board(hosts.remove(i)),
{
    let rest = hosts.remove(i);
    assert forall|a: int, b: int| 0 <= a < b < rest.len() implies (#[trigger] rest[a]).host != (
    #[trigger] rest[b]).host by {
        let x = if a < i {
            a
        } else {
            a + 1
        };
        let y = if b < i {
            b
        } else {
            b + 1
        };
        assert(rest[a] == hosts[x] && rest[b] == hosts[y]);
    }
}

proof fn lemma_updated(hosts: Seq<PendingView>, i: int, now: PendingView)
    requires
        on_board(hosts),
        0 <= i < hosts.len(),
        now.host == hosts[i].host,
        now.remaining > 0,
    ensures
        on_board(hosts.update(i, now)),
{
}

// ==================== Both protocols at once ====================

/// What a host's two results amount to: those that succeeded, Java first; or both errors if none
/// did.
pub open spec fn combined<T>(java: Result<T, Seq<char>>, bedrock: Result<T, Seq<char>>) -> Result<
    Seq<T>,
    (Seq<char>, Seq<char>),
> {
    match (java, bedrock) {
        (Ok(a), Ok(b)) => Ok(seq![a, b]),
        (Ok(a), Err(_)) => Ok(seq![a]),
        (Err(_), Ok(b)) => Ok(seq![b]),
        (Err(a), Err(b)) => Err((a, b)),
    }
}

/// A result with its error as text.
pub open spec fn error_texts<T>(r: Result<T, String>) -> Result<T, Seq<char>> {
    match r {
        Ok(v) => Ok(v),
        Err(m) => Err(m@),
    }
}

/// Combines the two results of a host that was asked on both protocols.
pub fn combine<T>(java: Result<T, String>, bedrock: Result<T, String>) -> (r: Result<
    Vec<T>,
    (String, String),
>)
    ensures
        match (r, combined(error_texts(java), error_texts(bedrock))) {
            (Ok(a), Ok(b)) => a@ == b,
            (Err(a), Err(b)) => a.0@ == b.0 && a.1@ == b.1,
            _ => false,
        },
{
    let mut results: Vec<T> = Vec::new();
    match (java, bedrock) {
        (Ok(a), Ok(b)) => {
            results.push(a);
            results.push(b);
            Ok(results)
        },
        (Ok(a), Err(_)) => {
            results.push(a);
            Ok(results)
        },
        (Err(_), Ok(b)) => {
            results.push(b);
            Ok(results)
        },
        (Err(a), Err(b)) => Err((a, b)),
    }
}

/// The exit code of a run that reports host by host, by which hosts had a success.
pub open spec fn code_of(succeeded: Seq<bool>) -> int {
    if forall|i: int| 0 <= i < succeeded.len() ==> succeeded[i] {
        0
    } else {
        1
    }
}

/// The exit code of a run that reports host by host: 0 if every host had a success, else 1.
pub fn exit_code(succeeded: &Vec<bool>) -> (r: i32)
    ensures
        r == code_of(succeeded@),
        r == (if forall|i: int| 0 <= i < succeeded@.len() ==> succeeded@[i] {
            0int
        } else {
            1int
        }),
{
    let mut i: usize = 0;
    while i < succeeded.len()
        invariant
            i <= succeeded@.len(),
            forall|k: int| 0 <= k < i ==> succeeded@[k],
        decreases succeeded@.len() - i,
    {
        if !succeeded[i] {
            return 1;
        }
        i = i + 1;
    }
    0
}

// ==================== Laws ====================

/// A result of one host leaves every other host as it was.
pub proof fn law_hosts_are_apart(
    board: BoardView,
    host: Seq<char>,
    other: Seq<char>,
    edition: Edition,
    error: Option<Seq<char>>,
)
    requires
        on_board(board.hosts),
        host != other,
    ensures
        entry(reported(board, host, edition, error).0.hosts, other) == entry(board.hosts, other),
        on_board(reported(board, host, edition, error).0.hosts),
{
    let before = board.hosts;
    let i = place(before, host);
    lemma_place_bounds(before, host);
    lemma_place_bounds(before, other);
    let j = place(before, other);
    if i < before.len() {
        let now = before[i].after(edition, error);
        if now.remaining == 0 {
            lemma_without(before, i);
            let rest = before.remove(i);
            let k = if j > i {
                j - 1
            } else {
                j
            };
            assert forall|m: int| 0 <= m < k implies rest[m].host != other by {
                assert(rest[m] == before[if m < i {
                    m
                } else {
                    m + 1
                }]);
            }
            if j < before.len() {
                assert(rest[k] == before[j]);
            }
            lemma_place(rest, other, k);
        } else {
            lemma_updated(before, i, now);
            let rest = before.update(i, now);
            assert forall|m: int| 0 <= m < j implies rest[m].host != other by {
                assert(m == i || rest[m] == before[m]);
            }
            lemma_place(rest, other, j);
        }
    }
}

/// The result of the only query of a host that is left decides: a success, now or before, keeps
/// the failures back; without one they are all reported, in the order in which they arrived, and
/// the tool fails. The host leaves the board.
pub proof fn law_last_result_decides(
    board: BoardView,
    host: Seq<char>,
    edition: Edition,
    error: Option<Seq<char>>,
)
    requires
        on_board(board.hosts),
        entry(board.hosts, host) is Some,
        entry(board.hosts, host)->0.remaining == 1,
    ensures
        ({
            let was = entry(board.hosts, host)->0;
            let (after, verdict) = reported(board, host, edition, error);
            &&& entry(after.hosts, host) is None
            &&& match error {
                None => verdict == VerdictView::Show && after.any_failed == board.any_failed,
                Some(m) => if was.had_success {
                    verdict == VerdictView::Quiet && after.any_failed == board.any_failed
                } else {
                    verdict == VerdictView::Failed(was.failures.push((edition, m)))
                        && after.any_failed
                },
            }
        }),
{
    let before = board.hosts;
    let i = place(before, host);
    lemma_place_bounds(before, host);
    let rest = before.remove(i);
    assert forall|m: int| 0 <= m < rest.len() implies rest[m].host != host by {
        if m < i {
            assert(rest[m] == before[m]);
        } else {
            assert(rest[m] == before[m + 1]);
        }
    }
    lemma_place(rest, host, rest.len() as int);
}

/// The first of two results is shown if it is a success and kept back if it is not; nothing has
/// failed yet, and the host waits for the other.
pub proof fn law_first_result_waits(
    board: BoardView,
    host: Seq<char>,
    edition: Edition,
    error: Option<Seq<char>>,
)
    requires
        on_board(board.hosts),
        entry(board.hosts, host) == Some(untouched(host, 2)),
    ensures
        ({
            let (after, verdict) = reported(board, host, edition, error);
            &&& after.any_failed == board.any_failed
            &&& entry(after.hosts, host) == Some(untouched(host, 2).after(edition, error))
            &&& verdict == if error is None {
                VerdictView::Show
            } else {
                VerdictView::Quiet
            }
        }),
{
    let before = board.hosts;
    let i = place(before, host);
    lemma_place_bounds(before, host);
    let now = before[i].after(edition, error);
    let rest = before.update(i, now);
    assert forall|m: int| 0 <= m < i implies rest[m].host != host by {
        assert(rest[m] == before[m]);
    }
    lemma_place(rest, host, i);
}

proof fn lemma_all_registered(hosts: Seq<Seq<char>>, count: nat, host: Seq<char>)
    requires
        count > 0,
    ensures
        on_board(all_registered(hosts, count)),
        entry(all_registered(hosts, count), host) == (if hosts.contains(host) {
            Some(untouched(host, count))
        } else {
            None
        }),
    decreases hosts.len(),
{
    if hosts.len() > 0 {
        let fewer = hosts.drop_last();
        let last = hosts.last();
        lemma_all_registered(fewer, count, host);
        lemma_registered(all_registered(fewer, count), last, count);
        let before = all_registered(fewer, count);
        let after = all_registered(hosts, count);
        let i = place(before, last);
        lemma_place_bounds(before, last);
        lemma_place_bounds(before, host);
        let j = place(before, host);
        assert(hosts.contains(host) <==> fewer.contains(host) || last == host) by {
            if hosts.contains(host) {
                let k = choose|k: int| 0 <= k < hosts.len() && hosts[k] == host;
                if k < fewer.len() {
                    assert(fewer[k] == host);
                }
            }
            if fewer.contains(host) {
                let k = choose|k: int| 0 <= k < fewer.len() && fewer[k] == host;
                assert(hosts[k] == host);
            }
            assert(hosts[hosts.len() - 1] == last);
        }
        if host == last {
            assert forall|m: int| 0 <= m < i implies after[m].host != host by {
                assert(after[m] == before[m]);
            }
            lemma_place(after, host, i);
        } else if j < before.len() {
            assert forall|m: int| 0 <= m < j implies after[m].host != host by {
                assert(m == i || after[m] == before[m]);
            }
            assert(after[j] == before[j]);
            lemma_place(after, host, j);
        } else {
            assert forall|m: int| 0 <= m < after.len() implies after[m].host != host by {
                if m < before.len() && m != i {
                    assert(after[m] == before[m]);
                }
            }
            lemma_place(after, host, after.len() as int);
        }
    } else {
        assert(!hosts.contains(host));
    }
}

/// At the start every host that the user names is on the board, and no other.
pub proof fn law_every_host_is_entered(
    hosts: Seq<Seq<char>>,
    java: bool,
    bedrock: bool,
    host: Seq<char>,
)
    ensures
        entry(all_registered(hosts, editions(java, bedrock).len()), host) == (if hosts.contains(
            host,
        ) {
            Some(untouched(host, editions(java, bedrock).len()))
        } else {
            None
        }),
{
    lemma_all_registered(hosts, editions(java, bedrock).len(), host);
}

// ==================== A whole run ====================

/// A result that arrives; no error is a success.
#[verifier::ext_equal]
pub struct Arrival {
    pub host: Seq<char>,
    pub edition: Edition,
    pub error: Option<Seq<char>>,
}

/// The board after results, one after the other.
pub open spec fn after_all(board: BoardView, arrivals: Seq<Arrival>) -> BoardView
    decreases arrivals.len(),
{
    if arrivals.len() == 0 {
        board
    } else {
        let a = arrivals.last();
        reported(after_all(board, arrivals.drop_last()), a.host, a.edition, a.error).0
    }
}

/// The results of one host, in the order in which they arrive.
pub open spec fn results_of(arrivals: Seq<Arrival>, host: Seq<char>) -> Seq<Arrival>
    decreases arrivals.len(),
{
    if arrivals.len() == 0 {
        seq![]
    } else {
        let before = results_of(arrivals.drop_last(), host);
        if arrivals.last().host == host {
            before.push(arrivals.last())
        } else {
            before
        }
    }
}

/// One of the results is a success.
pub open spec fn has_success(results: Seq<Arrival>) -> bool {
    exists|i: int| 0 <= i < results.len() && (#[trigger] results[i]).error is None
}

/// What the board says of a host after its results.
pub open spec fn state_after(host: Seq<char>, count: nat, results: Seq<Arrival>) -> PendingView
    decreases results.len(),
{
    if results.len() == 0 {
        untouched(host, count)
    } else {
        let a = results.last();
        state_after(host, count, results.drop_last()).after(a.edition, a.error)
    }
}

/// All results of the host are there, and none is a success.
pub open spec fn all_failed(arrivals: Seq<Arrival>, count: nat, host: Seq<char>) -> bool {
    results_of(arrivals, host).len() == count && !has_success(results_of(arrivals, host))
}

proof fn lemma_state_after(host: Seq<char>, count: nat, results: Seq<Arrival>)
    requires
        results.len() <= count,
    ensures
        state_after(host, count, results).host == host,
        state_after(host, count, results).remaining == count - results.len(),
        state_after(host, count, results).had_success == has_success(results),
    decreases results.len(),
{
    if results.len() > 0 {
        let fewer = results.drop_last();
        lemma_state_after(host, count, fewer);
        if has_success(fewer) {
            let i = choose|i: int| 0 <= i < fewer.len() && (#[trigger] fewer[i]).error is None;
            assert(results[i].error is None);
        }
        if has_success(results) {
            let i = choose|i: int| 0 <= i < results.len() && (#[trigger] results[i]).error is None;
            if i < fewer.len() {
                assert(fewer[i].error is None);
            }
        }
        if results.last().error is None {
            assert(results[results.len() - 1].error is None);
        }
    }
}

/// What results that are no successes report, in order.
pub open spec fn failures_of(results: Seq<Arrival>) -> Seq<(Edition, Seq<char>)> {
    results.map_values(|a: Arrival| (a.edition, a.error->0))
}

proof fn lemma_failures_after(host: Seq<char>, count: nat, results: Seq<Arrival>)
    requires
        !has_success(results),
    ensures
        state_after(host, count, results).failures == failures_of(results),
    decreases results.len(),
{
    if results.len() > 0 {
        let fewer = results.drop_last();
        if has_success(fewer) {
            let i = choose|i: int| 0 <= i < fewer.len() && (#[trigger] fewer[i]).error is None;
            assert(results[i].error is None);
        }
        lemma_failures_after(host, count, fewer);
        assert(results[results.len() - 1].error is Some);
        assert(failures_of(results) =~= failures_of(fewer).push(
            (results.last().edition, results.last().error->0),
        ));
    } else {
        assert(failures_of(results) =~= Seq::empty());
    }
}

proof fn lemma_fewer_results(arrivals: Seq<Arrival>, i: int, host: Seq<char>)
    requires
        0 <= i <= arrivals.len(),
    ensures
        results_of(arrivals.take(i), host).len() <= results_of(arrivals, host).len(),
    decreases arrivals.len() - i,
{
    if i == arrivals.len() {
        assert(arrivals.take(i) =~= arrivals);
    } else {
        lemma_fewer_results(arrivals, i + 1, host);
        assert(arrivals.take(i + 1).drop_last() =~= arrivals.take(i));
    }
}

proof fn lemma_entry_at(hosts: Seq<PendingView>, i: int)
    requires
        on_board(hosts),
        0 <= i < hosts.len(),
    ensures
        entry(hosts, hosts[i].host) == Some(hosts[i]),
{
    assert forall|k: int| 0 <= k < i implies hosts[k].host != hosts[i].host by {}
    lemma_place(hosts, hosts[i].host, i);
}

proof fn lemma_own_entry(
    board: BoardView,
    host: Seq<char>,
    edition: Edition,
    error: Option<Seq<char>>,
)
    requires
        on_board(board.hosts),
        entry(board.hosts, host) is Some,
    ensures
        ({
            let now = (entry(board.hosts, host)->0).after(edition, error);
            let after = reported(board, host, edition, error).0;
            &&& on_board(after.hosts)
            &&& entry(after.hosts, host) == (if now.remaining == 0 {
                None
            } else {
                Some(now)
            })
            &&& after.any_failed == (board.any_failed || (now.remaining == 0 && !now.had_success))
        }),
{
    let before = board.hosts;
    let i = place(before, host);
    lemma_place_bounds(before, host);
    let now = before[i].after(edition, error);
    if now.remaining == 0 {
        lemma_without(before, i);
        let rest = before.remove(i);
        assert forall|m: int| 0 <= m < rest.len() implies rest[m].host != host by {
            if m < i {
                assert(rest[m] == before[m]);
            } else {
                assert(rest[m] == before[m + 1]);
            }
        }
        lemma_place(rest, host, rest.len() as int);
    } else {
        lemma_updated(before, i, now);
        let rest = before.update(i, now);
        assert forall|m: int| 0 <= m < i implies rest[m].host != host by {
            assert(rest[m] == before[m]);
        }
        lemma_place(rest, host, i);
    }
}

proof fn lemma_run(hosts: Seq<Seq<char>>, count: nat, arrivals: Seq<Arrival>)
    requires
        count > 0,
        forall|h: Seq<char>| #[trigger]
            hosts.contains(h) ==> results_of(arrivals, h).len() <= count,
    ensures
        ({
            let start = BoardView { hosts: all_registered(hosts, count), any_failed: false };
            let board = after_all(start, arrivals);
            &&& on_board(board.hosts)
            &&& forall|h: Seq<char>| #[trigger]
                entry(board.hosts, h) == (if hosts.contains(h) && results_of(arrivals, h).len()
                    < count {
                    Some(state_after(h, count, results_of(arrivals, h)))
                } else {
                    None
                })
            &&& board.any_failed <==> exists|h: Seq<char>| #[trigger]
                hosts.contains(h) && all_failed(arrivals, count, h)
        }),
    decreases arrivals.len(),
{
    let start = BoardView { hosts: all_registered(hosts, count), any_failed: false };
    let board = after_all(start, arrivals);
    if arrivals.len() == 0 {
        assert forall|h: Seq<char>| #[trigger]
            entry(board.hosts, h) == (if hosts.contains(h) {
                Some(untouched(h, count))
            } else {
                None
            }) by {
            lemma_all_registered(hosts, count, h);
        }
        lemma_all_registered(hosts, count, seq![]);
    } else {
        let fewer = arrivals.drop_last();
        let a = arrivals.last();
        let g = a.host;
        let was = after_all(start, fewer);
        assert forall|h: Seq<char>| #[trigger] hosts.contains(h) implies results_of(fewer, h).len()
            <= count by {
            assert(results_of(arrivals, h).len() >= results_of(fewer, h).len());
        }
        lemma_run(hosts, count, fewer);
        let mine = results_of(fewer, g);
        assert(results_of(arrivals, g) == mine.push(a));
        assert(mine.push(a).drop_last() == mine);
        let listed = entry(was.hosts, g) is Some;
        assert(listed <==> hosts.contains(g));
        if listed {
            lemma_own_entry(was, g, a.edition, a.error);
            lemma_state_after(g, count, mine);
            lemma_state_after(g, count, mine.push(a));
        }
        assert forall|h: Seq<char>| #[trigger]
            entry(board.hosts, h) == (if hosts.contains(h) && results_of(arrivals, h).len()
                < count {
                Some(state_after(h, count, results_of(arrivals, h)))
            } else {
                None
            }) by {
            if h != g {
                law_hosts_are_apart(was, g, h, a.edition, a.error);
            }
        }
        if !listed {
            assert(board == was);
        }
        if exists|h: Seq<char>| #[trigger] hosts.contains(h) && all_failed(fewer, count, h) {
            let h = choose|h: Seq<char>| #[trigger]
                hosts.contains(h) && all_failed(fewer, count, h);
            assert(h != g);
            assert(hosts.contains(h) && all_failed(arrivals, count, h));
        }
        if exists|h: Seq<char>| #[trigger] hosts.contains(h) && all_failed(arrivals, count, h) {
            let h = choose|h: Seq<char>| #[trigger]
                hosts.contains(h) && all_failed(arrivals, count, h);
            if h != g {
                assert(hosts.contains(h) && all_failed(fewer, count, h));
            }
        }
        if listed && mine.len() + 1 == count && !has_success(mine.push(a)) {
            assert(hosts.contains(g) && all_failed(arrivals, count, g));
        }
    }
}

proof fn lemma_unanswered(hosts: Seq<PendingView>)
    ensures
        unanswered(hosts).len() > 0 <==> exists|i: int|
            0 <= i < hosts.len() && !(#[trigger] hosts[i]).had_success,
    decreases hosts.len(),
{
    if hosts.len() > 0 {
        let fewer = hosts.drop_last();
        lemma_unanswered(fewer);
        if exists|i: int| 0 <= i < fewer.len() && !(#[trigger] fewer[i]).had_success {
            let i = choose|i: int| 0 <= i < fewer.len() && !(#[trigger] fewer[i]).had_success;
            assert(!hosts[i].had_success);
        }
        if exists|i: int| 0 <= i < hosts.len() && !(#[trigger] hosts[i]).had_success {
            let i = choose|i: int| 0 <= i < hosts.len() && !(#[trigger] hosts[i]).had_success;
            if i < fewer.len() {
                assert(!fewer[i].had_success);
            }
        }
        if !hosts.last().had_success {
            assert(!hosts[hosts.len() - 1].had_success);
        }
    }
}

/// The tool has failed exactly if some host had no success, whether its queries failed or ended
/// without a result. No host has more results than queries.
pub proof fn law_exit_code(
    hosts: Seq<Seq<char>>,
    java: bool,
    bedrock: bool,
    arrivals: Seq<Arrival>,
)
    requires
        forall|h: Seq<char>| #[trigger]
            hosts.contains(h) ==> results_of(arrivals, h).len() <= editions(java, bedrock).len(),
    ensures
        ({
            let start = BoardView {
                hosts: all_registered(hosts, editions(java, bedrock).len()),
                any_failed: false,
            };
            let board = after_all(start, arrivals);
            (board.any_failed || unanswered(board.hosts).len() > 0) <==> exists|h: Seq<char>|
                #[trigger] hosts.contains(h) && !has_success(results_of(arrivals, h))
        }),
{
    let count = editions(java, bedrock).len();
    let start = BoardView { hosts: all_registered(hosts, count), any_failed: false };
    let board = after_all(start, arrivals);
    lemma_run(hosts, count, arrivals);
    lemma_unanswered(board.hosts);
    if unanswered(board.hosts).len() > 0 {
        let i = choose|i: int|
            0 <= i < board.hosts.len() && !(#[trigger] board.hosts[i]).had_success;
        lemma_entry_at(board.hosts, i);
        let h = board.hosts[i].host;
        assert(entry(board.hosts, h) is Some);
        lemma_state_after(h, count, results_of(arrivals, h));
        assert(hosts.contains(h) && !has_success(results_of(arrivals, h)));
    }
    if board.any_failed {
        let h = choose|h: Seq<char>| #[trigger]
            hosts.contains(h) && all_failed(arrivals, count, h);
        assert(hosts.contains(h) && !has_success(results_of(arrivals, h)));
    }
    if exists|h: Seq<char>| #[trigger]
        hosts.contains(h) && !has_success(results_of(arrivals, h)) {
        let h = choose|h: Seq<char>| #[trigger]
            hosts.contains(h) && !has_success(results_of(arrivals, h));
        if results_of(arrivals, h).len() == count {
            assert(hosts.contains(h) && all_failed(arrivals, count, h));
        } else {
            lemma_state_after(h, count, results_of(arrivals, h));
            lemma_place_bounds(board.hosts, h);
            assert(entry(board.hosts, h) is Some);
            let i = place(board.hosts, h);
            assert(!board.hosts[i].had_success);
        }
    }
}

/// What is shown and reported in a whole run. A result of a host that the user named is shown
/// exactly if it is a success. Failures are reported exactly with the last result of a host that
/// had no success at all, and then all of them, in the order in which they arrived. No host has
/// more results than queries.
pub proof fn law_verdicts_of_a_run(
    hosts: Seq<Seq<char>>,
    java: bool,
    bedrock: bool,
    arrivals: Seq<Arrival>,
    i: int,
)
    requires
        forall|h: Seq<char>| #[trigger]
            hosts.contains(h) ==> results_of(arrivals, h).len() <= editions(java, bedrock).len(),
        0 <= i < arrivals.len(),
        hosts.contains(arrivals[i].host),
    ensures
        ({
            let count = editions(java, bedrock).len();
            let start = BoardView { hosts: all_registered(hosts, count), any_failed: false };
            let a = arrivals[i];
            let so_far = arrivals.take(i + 1);
            let verdict = reported(
                after_all(start, arrivals.take(i)),
                a.host,
                a.edition,
                a.error,
            ).1;
            &&& verdict == VerdictView::Show <==> a.error is None
            &&& verdict is Failed <==> all_failed(so_far, count, a.host)
            &&& verdict matches VerdictView::Failed(list) ==> list == failures_of(
                results_of(so_far, a.host),
            )
        }),
{
    let count = editions(java, bedrock).len();
    let start = BoardView { hosts: all_registered(hosts, count), any_failed: false };
    let a = arrivals[i];
    let before = arrivals.take(i);
    let so_far = arrivals.take(i + 1);
    assert(so_far.drop_last() =~= before);
    assert(so_far.last() == a);
    assert forall|h: Seq<char>| #[trigger] hosts.contains(h) implies results_of(before, h).len()
        <= count by {
        lemma_fewer_results(arrivals, i, h);
    }
    lemma_run(hosts, count, before);
    lemma_fewer_results(arrivals, i + 1, a.host);
    let mine = results_of(before, a.host);
    let now = results_of(so_far, a.host);
    assert(now == mine.push(a));
    assert(now.drop_last() =~= mine);
    let board = after_all(start, before);
    assert(entry(board.hosts, a.host) == Some(state_after(a.host, count, mine)));
    lemma_place_bounds(board.hosts, a.host);
    lemma_state_after(a.host, count, now);
    if a.error is None {
        assert(now[now.len() - 1].error is None);
        assert(has_success(now));
    }
    if !has_success(now) {
        lemma_failures_after(a.host, count, now);
    }
}

// ==================== What is asked ====================

/// A host is asked on Java unless only Bedrock is picked, and on Bedrock unless Java is picked; on
/// each once, on Java first.
pub proof fn law_editions(java: bool, bedrock: bool)
    ensures
        editions(java, bedrock).contains(Edition::Java) <==> java || !bedrock,
        editions(java, bedrock).contains(Edition::Bedrock) <==> !java,
        editions(java, bedrock).len() == (if java || bedrock {
            1int
        } else {
            2
        }),
        !java && !bedrock ==> editions(java, bedrock)[0] == Edition::Java,
{
    let e = editions(java, bedrock);
    assert(e[0] == Edition::Java || e[0] == Edition::Bedrock);
    if !java && !bedrock {
        assert(e[1] == Edition::Bedrock);
    }
}

/// Every host is asked on every protocol, host by host, in the order in which the user names them.
pub proof fn law_plan(hosts: Seq<Seq<char>>, java: bool, bedrock: bool)
    ensures
        ({
            let plan = planned(hosts, java, bedrock);
            let kinds = editions(java, bedrock);
            &&& plan.len() == hosts.len() * kinds.len()
            &&& forall|i: int, j: int|
                0 <= i < hosts.len() && 0 <= j < kinds.len() ==> #[trigger] is_asked(
                    plan,
                    hosts,
                    kinds,
                    i,
                    j,
                )
        }),
    decreases hosts.len(),
{
    let kinds = editions(java, bedrock);
    let n = kinds.len() as int;
    let plan = planned(hosts, java, bedrock);
    if hosts.len() > 0 {
        let fewer = hosts.drop_last();
        let before = planned(fewer, java, bedrock);
        law_plan(fewer, java, bedrock);
        let m = fewer.len() as int;
        assert((m + 1) * n == m * n + n) by (nonlinear_arith);
        assert forall|i: int, j: int|
            0 <= i < hosts.len() && 0 <= j < kinds.len() implies #[trigger] is_asked(
            plan,
            hosts,
            kinds,
            i,
            j,
        ) by {
            if i < m {
                assert(is_asked(before, fewer, kinds, i, j));
                assert(i * n + j < m * n) by (nonlinear_arith)
                    requires
                        0 <= i < m,
                        0 <= j < n,
                ;
                assert(i * n + j >= 0) by (nonlinear_arith)
                    requires
                        0 <= i,
                        0 <= j < n,
                ;
                assert(plan[i * n + j] == before[i * n + j]);
            } else {
                assert(plan[m * n + j] == (hosts.last(), kinds[j]));
            }
        }
    } else {
        assert(0 * n == 0) by (nonlinear_arith);
    }
}

/// The query of a host on a protocol stands in its place.
pub open spec fn is_asked(
    plan: Seq<(Seq<char>, Edition)>,
    hosts: Seq<Seq<char>>,
    kinds: Seq<Edition>,
    i: int,
    j: int,
) -> bool {
    plan[i * kinds.len() + j] == (hosts[i], kinds[j])
}

/// What a result does to its host: one query fewer is running; a success is remembered, and a
/// failure is kept behind those before it, and neither loses what was there.
pub proof fn law_result_counts(p: PendingView, edition: Edition, error: Option<Seq<char>>)
    requires
        p.remaining > 0,
    ensures
        p.after(edition, error).host == p.host,
        p.after(edition, error).remaining + 1 == p.remaining,
        p.after(edition, error).had_success <==> p.had_success || error is None,
        error is None ==> p.after(edition, error).failures == p.failures,
        error matches Some(m) ==> p.after(edition, error).failures == p.failures + seq![
            (edition, m),
        ],
{
    if let Some(m) = error {
        assert(p.failures.push((edition, m)) =~= p.failures + seq![(edition, m)]);
    }
}

/// A host is left without an answer exactly if it is on the board without a success; each that is
/// so is named once, in the order of the board.
pub proof fn law_unanswered(hosts: Seq<PendingView>, host: Seq<char>)
    requires
        on_board(hosts),
    ensures
        unanswered(hosts).contains(host) <==> (entry(hosts, host) matches Some(p) && !p.had_success),
        unanswered(hosts).no_duplicates(),
        unanswered(hosts).len() <= hosts.len(),
    decreases hosts.len(),
{
    if hosts.len() > 0 {
        let fewer = hosts.drop_last();
        let last = hosts.last();
        let n = fewer.len() as int;
        assert forall|i: int, j: int| 0 <= i < j < fewer.len() implies (#[trigger] fewer[i]).host
            != (#[trigger] fewer[j]).host by {
            assert(hosts[i].host != hosts[j].host);
        }
        assert forall|i: int| 0 <= i < fewer.len() implies (#[trigger] fewer[i]).remaining > 0 by {
            assert(hosts[i].remaining > 0);
        }
        law_unanswered(fewer, host);
        law_unanswered(fewer, last.host);
        lemma_place_bounds(fewer, host);
        lemma_place_bounds(fewer, last.host);
        lemma_place_bounds(hosts, host);
        let i = place(fewer, host);
        assert(place(fewer, last.host) == n) by {
            let k = place(fewer, last.host);
            if k < n {
                assert(hosts[k].host != hosts[n].host);
            }
        }
        if i < n {
            assert forall|k: int| 0 <= k < i implies hosts[k].host != host by {
                assert(fewer[k].host != host);
            }
            assert(hosts[i] == fewer[i]);
            lemma_place(hosts, host, i);
        } else {
            assert forall|k: int| 0 <= k < n implies hosts[k].host != host by {
                assert(fewer[k].host != host);
            }
            if last.host == host {
                lemma_place(hosts, host, n);
            } else {
                lemma_place(hosts, host, n + 1);
            }
        }
        let before = unanswered(fewer);
        if !last.had_success {
            let all = before.push(last.host);
            assert(!before.contains(last.host));
            assert(all.contains(host) <==> before.contains(host) || host == last.host) by {
                if all.contains(host) {
                    let k = choose|k: int| 0 <= k < all.len() && all[k] == host;
                    if k < before.len() {
                        assert(before[k] == host);
                    }
                }
                if before.contains(host) {
                    let k = choose|k: int| 0 <= k < before.len() && before[k] == host;
                    assert(all[k] == host);
                }
                assert(all[before.len() as int] == last.host);
            }
            assert forall|a: int, b: int| 0 <= a < b < all.len() implies all[a] != all[b] by {
                if b == before.len() {
                    assert(before.contains(before[a]));
                }
            }
        }
    }
}

/// What two results of a host amount to: what succeeded, Java first, or both errors.
pub proof fn law_combined<T>(java: Result<T, Seq<char>>, bedrock: Result<T, Seq<char>>)
    ensures
        combined(java, bedrock) is Err <==> java is Err && bedrock is Err,
        combined(java, bedrock) matches Err((a, b)) ==> java == Err::<T, Seq<char>>(a) && bedrock
            == Err::<T, Seq<char>>(b),
        combined(java, bedrock) matches Ok(list) ==> {
            &&& java is Ok && bedrock is Ok ==> list.len() == 2
            &&& java is Err || bedrock is Err ==> list.len() == 1
            &&& java matches Ok(a) ==> list[0] == a
            &&& bedrock matches Ok(b) ==> list.last() == b
        },
{
}

/// The tool ends with code 0 exactly if every host that the user named had a success, and else with
/// code 1.
pub proof fn law_final_code(
    hosts: Seq<Seq<char>>,
    java: bool,
    bedrock: bool,
    arrivals: Seq<Arrival>,
)
    requires
        forall|h: Seq<char>| #[trigger]
            hosts.contains(h) ==> results_of(arrivals, h).len() <= editions(java, bedrock).len(),
    ensures
        ({
            let start = BoardView {
                hosts: all_registered(hosts, editions(java, bedrock).len()),
                any_failed: false,
            };
            let code = final_code(after_all(start, arrivals));
            &&& code == 0 || code == 1
            &&& code == 0 <==> forall|h: Seq<char>| #[trigger]
                hosts.contains(h) ==> has_success(results_of(arrivals, h))
        }),
{
    law_exit_code(hosts, java, bedrock, arrivals);
}

/// One more host leaves a run's code at 0 exactly if it had a success; a run without hosts has
/// code 0, and every run 0 or 1.
pub proof fn law_code_of_one_more(succeeded: Seq<bool>, last: bool)
    ensures
        code_of(Seq::empty()) == 0,
        code_of(succeeded.push(last)) == 0 <==> code_of(succeeded) == 0 && last,
        code_of(succeeded) == 0 || code_of(succeeded) == 1,
{
    let all = succeeded.push(last);
    if code_of(all) == 0 {
        assert forall|i: int| 0 <= i < succeeded.len() implies succeeded[i] by {
            assert(all[i]);
        }
        assert(all[succeeded.len() as int]);
    }
}

/// A result of a host that is not on the board changes nothing and is not shown.
pub proof fn law_unknown_host(
    board: BoardView,
    host: Seq<char>,
    edition: Edition,
    error: Option<Seq<char>>,
)
    requires
        forall|i: int| 0 <= i < board.hosts.len() ==> (#[trigger] board.hosts[i]).host != host,
    ensures
        reported(board, host, edition, error) == (board, VerdictView::Quiet),
{
    lemma_place(board.hosts, host, board.hosts.len() as int);
}

/// The editions have different names, and in a report of a failure they are `java` and `bedrock`.
pub proof fn law_edition_names()
    ensures
        Edition::Java.name() == "java"@,
        Edition::Bedrock.name() == "bedrock"@,
{
}

} // verus!
