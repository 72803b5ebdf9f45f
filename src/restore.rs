//! The restore run as a state machine. Each archive goes through the stages
//! open, probe, prepare the destination, decrypt and unpack, in that order;
//! a failed stage ends that archive's turn, and the run goes on with the next
//! archive.

use vstd::prelude::*;

verus! {

/// The next thing to do for the current archive.
#[derive(Clone, Copy, PartialEq, Eq, Structural, Debug)]
pub enum RestoreStage {
    /// Open the archive file.
    Open,
    /// Check that the archive is encrypted with a passphrase.
    Probe,
    /// Create the destination directory and its parents.
    PrepareDir,
    /// Ask for the passphrase and decrypt.
    Decrypt,
    /// Unpack the decrypted container into the destination.
    Unpack,
}

/// The stage that follows `s` once it succeeded; `None` after unpacking.
pub open spec fn next_stage(s: RestoreStage) -> Option<RestoreStage> {
    match s {
        RestoreStage::Open => Some(RestoreStage::Probe),
        RestoreStage::Probe => Some(RestoreStage::PrepareDir),
        RestoreStage::PrepareDir => Some(RestoreStage::Decrypt),
        RestoreStage::Decrypt => Some(RestoreStage::Unpack),
        RestoreStage::Unpack => None,
    }
}

/// How far into an archive's turn a stage stands.
pub open spec fn stage_rank(s: RestoreStage) -> nat {
    match s {
        RestoreStage::Open => 0,
        RestoreStage::Probe => 1,
        RestoreStage::PrepareDir => 2,
        RestoreStage::Decrypt => 3,
        RestoreStage::Unpack => 4,
    }
}

/// A restore run: how many archives it has, which one is at its turn and at
/// what stage, and which archives failed and which were restored.
pub ghost struct RestoreView {
    pub total: nat,
    pub index: nat,
    pub stage: RestoreStage,
    pub failed: Seq<nat>,
    pub restored: Seq<nat>,
}

/// The run before any archive's turn.
pub open spec fn restore_start(total: nat) -> RestoreView {
    RestoreView { total, index: 0, stage: RestoreStage::Open, failed: seq![], restored: seq![] }
}

/// The run once the current stage has succeeded (`ok`) or failed. A failure
/// ends the current archive's turn as failed; the success of the unpack ends
/// it as restored. Either way the next archive's turn begins at `Open`.
pub open spec fn restore_step(v: RestoreView, ok: bool) -> RestoreView {
    if v.index >= v.total {
        v
    } else if !ok {
        RestoreView {
            index: v.index + 1,
            stage: RestoreStage::Open,
            failed: v.failed.push(v.index),
            ..v
        }
    } else {
        match next_stage(v.stage) {
            Some(s) => RestoreView { stage: s, ..v },
            None => RestoreView {
                index: v.index + 1,
                stage: RestoreStage::Open,
                restored: v.restored.push(v.index),
                ..v
            },
        }
    }
}

/// The run once the outcomes `os` have been recorded in turn.
pub open spec fn restore_steps(v: RestoreView, os: Seq<bool>) -> RestoreView
    decreases os.len(),
{
    if os.len() == 0 {
        v
    } else {
        restore_steps(restore_step(v, os[0]), os.drop_first())
    }
}

/// Every archive before the current one has ended its turn exactly once,
/// either failed or restored, and none after it has.
pub open spec fn accounts_kept(v: RestoreView) -> bool {
    &&& v.index <= v.total
    &&& v.failed.no_duplicates()
    &&& v.restored.no_duplicates()
    &&& forall|k: nat| k < v.index ==> (v.failed.contains(k) != v.restored.contains(k))
    &&& forall|i: int| 0 <= i < v.failed.len() ==> #[trigger] v.failed[i] < v.index
    &&& forall|i: int| 0 <= i < v.restored.len() ==> #[trigger] v.restored[i] < v.index
}

/// The stages left at most before the run has given every archive its turn.
pub open spec fn stages_left(v: RestoreView) -> nat {
    if v.index >= v.total {
        0
    } else {
        (5 * (v.total - v.index) - stage_rank(v.stage)) as nat
    }
}

pub struct RestoreRun {
    total: usize,
    index: usize,
    stage: RestoreStage,
    failed: Vec<usize>,
    restored: Vec<usize>,
}

pub open spec fn nats_of(v: Seq<usize>) -> Seq<nat> {
    v.map_values(|x: usize| x as nat)
}

impl View for RestoreRun {
    type V = RestoreView;

    closed spec fn view(&self) -> RestoreView {
        RestoreView {
            total: self.total as nat,
            index: self.index as nat,
            stage: self.stage,
            failed: nats_of(self.failed@),
            restored: nats_of(self.restored@),
        }
    }
}

impl RestoreRun {
    /// A run over `total` archives, before any archive's turn.
    pub fn new(total: usize) -> (r: RestoreRun)
        ensures
            r@ == restore_start(total as nat),
    {
        let r = RestoreRun {
            total,
            index: 0,
            stage: RestoreStage::Open,
            failed: Vec::new(),
            restored: Vec::new(),
        };
        assert(r@.failed =~= Seq::<nat>::empty());
        assert(r@.restored =~= Seq::<nat>::empty());
        r
    }

    /// The archive at its turn and the stage to perform on it; `None` once
    /// every archive has had its turn.
    pub fn current(&self) -> (r: Option<(usize, RestoreStage)>)
        ensures
            r is None <==> self@.index >= self@.total,
            r matches Some((i, s)) ==> i as nat == self@.index && s == self@.stage,
    {
        if self.index < self.total {
            Some((self.index, self.stage))
        } else {
            None
        }
    }

    /// Records whether the current stage succeeded.
    pub fn record(&mut self, ok: bool)
        ensures
            final(self)@ == restore_step(old(self)@, ok),
    {
        if self.index >= self.total {
            return ;
        }
        let ghost before = self@;
        if !ok {
            self.failed.push(self.index);
            self.index = self.index + 1;
            self.stage = RestoreStage::Open;
            assert(self@.failed =~= before.failed.push(before.index));
            assert(self@ == restore_step(before, ok));
            return ;
        }
        match self.stage {
            RestoreStage::Open => {
                self.stage = RestoreStage::Probe;
            },
            RestoreStage::Probe => {
                self.stage = RestoreStage::PrepareDir;
            },
            RestoreStage::PrepareDir => {
                self.stage = RestoreStage::Decrypt;
            },
            RestoreStage::Decrypt => {
                self.stage = RestoreStage::Unpack;
            },
            RestoreStage::Unpack => {
                self.restored.push(self.index);
                self.index = self.index + 1;
                self.stage = RestoreStage::Open;
                assert(self@.restored =~= before.restored.push(before.index));
            },
        }
        assert(self@ == restore_step(before, ok));
    }

    /// The indices of the archives whose turn ended in a failure, in order.
    pub fn failed(&self) -> (r: Vec<usize>)
        ensures
            nats_of(r@) == self@.failed,
    {
        self.failed.clone()
    }

    /// The indices of the archives that were restored, in order.
    pub fn restored(&self) -> (r: Vec<usize>)
        ensures
            nats_of(r@) == self@.restored,
    {
        self.restored.clone()
    }
}

/// A wrong passphrase, or any other failure to decrypt, ends the archive's
/// turn as failed before anything is unpacked; the next archive's turn
/// begins, and no other archive's account changes.
pub proof fn lemma_failed_decrypt_moves_on(v: RestoreView)
    requires
        v.index < v.total,
        v.stage == RestoreStage::Decrypt,
    ensures
        restore_step(v, false).stage == RestoreStage::Open,
        restore_step(v, false).index == v.index + 1,
        restore_step(v, false).failed == v.failed.push(v.index),
        restore_step(v, false).restored == v.restored,
{
}

/// Each recorded outcome keeps every archive's account exact.
pub proof fn lemma_restore_step_keeps_accounts(v: RestoreView, ok: bool)
    requires
        accounts_kept(v),
    ensures
        accounts_kept(restore_step(v, ok)),
        stages_left(restore_step(v, ok)) < stages_left(v) || v.index >= v.total,
{
    let w = restore_step(v, ok);
    if v.index < v.total {
        if w.index == v.index + 1 {
            assert forall|k: nat| k < w.index implies (w.failed.contains(k) != w.restored.contains(
                k,
            )) by {
                if k == v.index {
                    assert(!v.failed.contains(k));
                    assert(!v.restored.contains(k));
                    if w.failed.len() > v.failed.len() {
                        assert(w.failed[v.failed.len() as int] == k);
                        assert(w.restored == v.restored);
                    } else {
                        assert(w.restored[v.restored.len() as int] == k);
                        assert(w.failed == v.failed);
                    }
                } else {
                    assert(v.failed.contains(k) ==> w.failed.contains(k)) by {
                        if v.failed.contains(k) {
                            let i = choose|i: int| 0 <= i < v.failed.len() && v.failed[i] == k;
                            assert(w.failed[i] == k);
                        }
                    }
                    assert(v.restored.contains(k) ==> w.restored.contains(k)) by {
                        if v.restored.contains(k) {
                            let i = choose|i: int| 0 <= i < v.restored.len() && v.restored[i] == k;
                            assert(w.restored[i] == k);
                        }
                    }
                    assert(w.failed.contains(k) ==> v.failed.contains(k)) by {
                        if w.failed.contains(k) {
                            let i = choose|i: int| 0 <= i < w.failed.len() && w.failed[i] == k;
                            if i < v.failed.len() {
                                assert(v.failed[i] == k);
                            }
                        }
                    }
                    assert(w.restored.contains(k) ==> v.restored.contains(k)) by {
                        if w.restored.contains(k) {
                            let i = choose|i: int| 0 <= i < w.restored.len() && w.restored[i] == k;
                            if i < v.restored.len() {
                                assert(v.restored[i] == k);
                            }
                        }
                    }
                }
            }
        }
    }
}

/// Whatever each stage's outcome, a run over `total` archives gives every
/// archive its turn within five outcomes per archive, and ends with each
/// archive either failed or restored, never both.
pub proof fn lemma_restore_run_reaches_every_archive(total: nat, os: Seq<bool>)
    requires
        os.len() >= 5 * total,
    ensures
        restore_steps(restore_start(total), os).index == total,
        accounts_kept(restore_steps(restore_start(total), os)),
{
    lemma_restore_steps_progress(restore_start(total), os);
}

proof fn lemma_restore_steps_progress(v: RestoreView, os: Seq<bool>)
    requires
        accounts_kept(v),
        os.len() >= stages_left(v),
    ensures
        restore_steps(v, os).index == v.total,
        accounts_kept(restore_steps(v, os)),
    decreases os.len(),
{
    if os.len() > 0 {
        lemma_restore_step_keeps_accounts(v, os[0]);
        lemma_restore_steps_progress(restore_step(v, os[0]), os.drop_first());
    }
}

} // verus!
