use vstd::prelude::*;
use crate::bytes::{append_bytes, bytes_eq, copy_bytes};

verus! {

/// The state of one (plugin, version) slot of the install root. A slot that
/// is being staged is held by the install run that began it, which is the
/// advisory lock of the pair; only a published slot is visible to readers.
#[derive(Clone, Copy, Debug, PartialEq, Eq, Structural)]
pub enum SlotState {
    Staging(u64),
    Published,
}

/// How a plugin backend's install run ended.
#[derive(Clone, Copy, Debug, PartialEq, Eq, Structural)]
pub enum BackendOutcome {
    Succeeded,
    NotFound,
    NetworkFailure,
    BuildFailure,
}

/// Why an install was refused or failed.
#[derive(Clone, Copy, Debug, PartialEq, Eq, Structural)]
pub enum InstallError {
    /// The backend knows no such version.
    NotFound,
    /// The backend could not fetch the version.
    NetworkFailure,
    /// The backend could not build the version.
    BuildFailure,
    /// The version is published already.
    AlreadyInstalled,
    /// Another run is staging the same version; try again later.
    AlreadyInstalling,
    /// The caller does not hold the staging lock of the version.
    NotInstalling,
}

/// Why an uninstall failed.
#[derive(Clone, Copy, Debug, PartialEq, Eq, Structural)]
pub enum UninstallError {
    NotInstalled,
}

/// One slot of the install root.
#[derive(Debug)]
pub struct Slot {
    pub plugin: Vec<u8>,
    pub version: Vec<u8>,
    pub state: SlotState,
    pub installed_at: u64,
}

/// A published install, as readers see it.
#[derive(Debug)]
pub struct InstalledVersion {
    pub plugin: Vec<u8>,
    pub version: Vec<u8>,
    pub install_dir: Vec<u8>,
    pub installed_at: u64,
}

pub type SlotKey = (Seq<u8>, Seq<u8>);

pub type SlotValue = (SlotState, u64);

pub open spec fn key_of(s: Slot) -> SlotKey {
    (s.plugin@, s.version@)
}

pub open spec fn value_of(s: Slot) -> SlotValue {
    (s.state, s.installed_at)
}

pub open spec fn unique_keys(s: Seq<Slot>) -> bool {
    forall|i: int, j: int|
        0 <= i < s.len() && 0 <= j < s.len() && i != j ==> key_of(#[trigger] s[i]) != key_of(
            #[trigger] s[j],
        )
}

pub open spec fn lookup(s: Seq<Slot>, k: SlotKey) -> Option<SlotValue>
    decreases s.len(),
{
    if s.len() == 0 {
        None
    } else if key_of(s.last()) == k {
        Some(value_of(s.last()))
    } else {
        lookup(s.drop_last(), k)
    }
}

pub open spec fn slots_map(s: Seq<Slot>) -> Map<SlotKey, SlotValue> {
    Map::new(|k: SlotKey| lookup(s, k) is Some, |k: SlotKey| lookup(s, k)->Some_0)
}

/// `<root>/<plugin>/<version>`: where a published version lives.
pub open spec fn install_dir_spec(root: Seq<u8>, plugin: Seq<u8>, version: Seq<u8>) -> Seq<u8> {
    root + seq![47u8] + plugin + seq![47u8] + version
}

/// A version is installed when its slot is published; a slot being staged
/// reads as not installed.
pub open spec fn installed_spec(m: Map<SlotKey, SlotValue>, k: SlotKey) -> bool {
    m.contains_key(k) && m[k].0 == SlotState::Published
}

/// Beginning an install takes the pair's staging lock, unless the pair is
/// published or being staged already.
pub open spec fn begin_spec(m: Map<SlotKey, SlotValue>, k: SlotKey, owner: u64) -> (
    Map<SlotKey, SlotValue>,
    Result<(), InstallError>,
) {
    if !m.contains_key(k) {
        (m.insert(k, (SlotState::Staging(owner), 0)), Ok(()))
    } else if m[k].0 == SlotState::Published {
        (m, Err(InstallError::AlreadyInstalled))
    } else {
        (m, Err(InstallError::AlreadyInstalling))
    }
}

/// Finishing an install publishes the staged pair at once when the backend
/// succeeded and discards the staging otherwise; only the lock holder may
/// finish.
pub open spec fn finish_spec(
    m: Map<SlotKey, SlotValue>,
    k: SlotKey,
    owner: u64,
    outcome: BackendOutcome,
    now: u64,
) -> (Map<SlotKey, SlotValue>, Result<(), InstallError>) {
    if !(m.contains_key(k) && m[k].0 == SlotState::Staging(owner)) {
        (m, Err(InstallError::NotInstalling))
    } else {
        match outcome {
            BackendOutcome::Succeeded => (m.insert(k, (SlotState::Published, now)), Ok(())),
            BackendOutcome::NotFound => (m.remove(k), Err(InstallError::NotFound)),
            BackendOutcome::NetworkFailure => (m.remove(k), Err(InstallError::NetworkFailure)),
            BackendOutcome::BuildFailure => (m.remove(k), Err(InstallError::BuildFailure)),
        }
    }
}

/// Uninstalling removes a published pair and nothing else.
pub open spec fn uninstall_spec(m: Map<SlotKey, SlotValue>, k: SlotKey) -> (
    Map<SlotKey, SlotValue>,
    Result<(), UninstallError>,
) {
    if installed_spec(m, k) {
        (m.remove(k), Ok(()))
    } else {
        (m, Err(UninstallError::NotInstalled))
    }
}

proof fn lemma_lookup(s: Seq<Slot>, k: SlotKey)
    requires
        unique_keys(s),
    ensures
        forall|i: int| 0 <= i < s.len() && key_of(#[trigger] s[i]) == k ==> lookup(s, k) == Some(
            value_of(s[i]),
        ),
        (forall|i: int| 0 <= i < s.len() ==> key_of(#[trigger] s[i]) != k) ==> lookup(s, k) is None,
    decreases s.len(),
{
    if s.len() > 0 {
        let init = s.drop_last();
        assert(unique_keys(init)) by {
            assert forall|i: int, j: int|
                0 <= i < init.len() && 0 <= j < init.len() && i != j implies key_of(
                #[trigger] init[i],
            ) != key_of(#[trigger] init[j]) by {
                assert(init[i] == s[i] && init[j] == s[j]);
            }
        }
        lemma_lookup(init, k);
        assert forall|i: int| 0 <= i < s.len() && key_of(#[trigger] s[i]) == k implies lookup(s, k)
            == Some(value_of(s[i])) by {
            if i < s.len() - 1 {
                assert(init[i] == s[i]);
                assert(key_of(s[s.len() - 1]) != k);
            }
        }
        if forall|i: int| 0 <= i < s.len() ==> key_of(#[trigger] s[i]) != k {
            assert forall|i: int| 0 <= i < init.len() implies key_of(#[trigger] init[i]) != k by {
                assert(init[i] == s[i]);
            }
            assert(key_of(s[s.len() - 1]) != k);
        }
    }
}

proof fn lemma_push(s: Seq<Slot>, x: Slot)
    requires
        unique_keys(s),
        forall|i: int| 0 <= i < s.len() ==> key_of(#[trigger] s[i]) != key_of(x),
    ensures
        unique_keys(s.push(x)),
        slots_map(s.push(x)) == slots_map(s).insert(key_of(x), value_of(x)),
{
    let t = s.push(x);
    assert forall|i: int, j: int| 0 <= i < t.len() && 0 <= j < t.len() && i != j implies key_of(
        #[trigger] t[i],
    ) != key_of(#[trigger] t[j]) by {
        if i < s.len() && j < s.len() {
            assert(t[i] == s[i] && t[j] == s[j]);
        } else if i < s.len() {
            assert(t[i] == s[i]);
        } else {
            assert(t[j] == s[j]);
        }
    }
    assert(t.drop_last() =~= s);
    assert(slots_map(t) =~= slots_map(s).insert(key_of(x), value_of(x)));
}

proof fn lemma_remove(s: Seq<Slot>, i: int)
    requires
        unique_keys(s),
        0 <= i < s.len(),
    ensures
        unique_keys(s.remove(i)),
        slots_map(s.remove(i)) == slots_map(s).remove(key_of(s[i])),
        forall|j: int| 0 <= j < s.remove(i).len() ==> key_of(#[trigger] s.remove(i)[j]) != key_of(s[i]),
{
    let t = s.remove(i);
    assert forall|a: int| 0 <= a < t.len() implies #[trigger] t[a] == s[if a < i { a } else { a + 1 }] by {}
    assert forall|a: int, b: int| 0 <= a < t.len() && 0 <= b < t.len() && a != b implies key_of(
        #[trigger] t[a],
    ) != key_of(#[trigger] t[b]) by {
        assert(t[a] == s[if a < i { a } else { a + 1 }]);
        assert(t[b] == s[if b < i { b } else { b + 1 }]);
    }
    assert forall|j: int| 0 <= j < t.len() implies key_of(#[trigger] t[j]) != key_of(s[i]) by {
        assert(t[j] == s[if j < i { j } else { j + 1 }]);
    }
    assert forall|k: SlotKey| #[trigger] lookup(t, k) == (if k == key_of(s[i]) {
        None
    } else {
        lookup(s, k)
    }) by {
        lemma_lookup(s, k);
        lemma_lookup(t, k);
        if k != key_of(s[i]) {
            if exists|j: int| 0 <= j < s.len() && key_of(#[trigger] s[j]) == k {
                let j = choose|j: int| 0 <= j < s.len() && key_of(#[trigger] s[j]) == k;
                let a = if j < i { j } else { j - 1 };
                assert(t[a] == s[j]);
            } else {
                assert forall|a: int| 0 <= a < t.len() implies key_of(#[trigger] t[a]) != k by {
                    assert(t[a] == s[if a < i { a } else { a + 1 }]);
                }
            }
        }
    }
    assert(slots_map(t) =~= slots_map(s).remove(key_of(s[i])));
}

/// The install root `<root>/<plugin>/<version>` and the state of each of its
/// (plugin, version) slots.
pub struct InstallRoot {
    pub root: Vec<u8>,
    pub slots: Vec<Slot>,
}

impl View for InstallRoot {
    type V = Map<SlotKey, SlotValue>;

    open spec fn view(&self) -> Map<SlotKey, SlotValue> {
        slots_map(self.slots@)
    }
}

impl InstallRoot {
    /// No slot holds two entries for one pair.
    pub open spec fn wf(&self) -> bool {
        unique_keys(self.slots@)
    }

    /// An install root with nothing installed.
    pub fn new(root: Vec<u8>) -> (r: InstallRoot)
        ensures
            r.wf(),
            r.root@ == root@,
            r@ == Map::<SlotKey, SlotValue>::empty(),
    {
        let r = InstallRoot { root, slots: Vec::new() };
        assert(r@ =~= Map::<SlotKey, SlotValue>::empty());
        r
    }

    fn find(&self, plugin: &Vec<u8>, version: &Vec<u8>) -> (r: Option<usize>)
        requires
            self.wf(),
        ensures
            match r {
                Some(i) => i < self.slots@.len() && key_of(self.slots@[i as int]) == (plugin@, version@)
                    && self@.contains_key((plugin@, version@)) && self@[(plugin@, version@)]
                    == value_of(self.slots@[i as int]),
                None => !self@.contains_key((plugin@, version@)) && forall|j: int|
                    0 <= j < self.slots@.len() ==> key_of(#[trigger] self.slots@[j]) != (plugin@, version@),
            },
    {
        let mut i: usize = 0;
        while i < self.slots.len()
            invariant
                self.wf(),
                0 <= i <= self.slots@.len(),
                forall|j: int| 0 <= j < i ==> key_of(#[trigger] self.slots@[j]) != (plugin@, version@),
            decreases self.slots@.len() - i,
        {
            if bytes_eq(&self.slots[i].plugin, plugin) && bytes_eq(&self.slots[i].version, version) {
                proof {
                    lemma_lookup(self.slots@, (plugin@, version@));
                }
                return Some(i);
            }
            i = i + 1;
        }
        proof {
            lemma_lookup(self.slots@, (plugin@, version@));
        }
        None
    }

    /// Whether the pair is published; a pair being staged is not installed.
    pub fn is_installed(&self, plugin: &Vec<u8>, version: &Vec<u8>) -> (r: bool)
        requires
            self.wf(),
        ensures
            r == installed_spec(self@, (plugin@, version@)),
    {
        match self.find(plugin, version) {
            Some(i) => match self.slots[i].state {
                SlotState::Published => true,
                SlotState::Staging(_) => false,
            },
            None => false,
        }
    }

    /// Records a pair found published on disk, installed at `installed_at`;
    /// a pair already known is left as it is.
    pub fn record_published(&mut self, plugin: &Vec<u8>, version: &Vec<u8>, installed_at: u64)
        requires
            old(self).wf(),
        ensures
            final(self).wf(),
            final(self).root@ == old(self).root@,
            final(self)@ == (if old(self)@.contains_key((plugin@, version@)) {
                old(self)@
            } else {
                old(self)@.insert((plugin@, version@), (SlotState::Published, installed_at))
            }),
    {
        if self.find(plugin, version).is_none() {
            let s = Slot {
                plugin: copy_bytes(plugin),
                version: copy_bytes(version),
                state: SlotState::Published,
                installed_at,
            };
            proof {
                lemma_push(self.slots@, s);
            }
            self.slots.push(s);
        }
    }

    /// Takes the staging lock of the pair for the install run `owner`.
    pub fn begin_install(&mut self, plugin: &Vec<u8>, version: &Vec<u8>, owner: u64) -> (r: Result<
        (),
        InstallError,
    >)
        requires
            old(self).wf(),
        ensures
            final(self).wf(),
            final(self).root@ == old(self).root@,
            (final(self)@, r) == begin_spec(old(self)@, (plugin@, version@), owner),
    {
        match self.find(plugin, version) {
            Some(i) => match self.slots[i].state {
                SlotState::Published => Err(InstallError::AlreadyInstalled),
                SlotState::Staging(_) => Err(InstallError::AlreadyInstalling),
            },
            None => {
                let s = Slot {
                    plugin: copy_bytes(plugin),
                    version: copy_bytes(version),
                    state: SlotState::Staging(owner),
                    installed_at: 0,
                };
                proof {
                    lemma_push(self.slots@, s);
                }
                self.slots.push(s);
                Ok(())
            },
        }
    }

    /// Ends the install run `owner` of the pair with the backend's outcome:
    /// on success the pair is published at `now`, else its staging is
    /// discarded. On success the published install is returned.
    pub fn finish_install(
        &mut self,
        plugin: &Vec<u8>,
        version: &Vec<u8>,
        owner: u64,
        outcome: BackendOutcome,
        now: u64,
    ) -> (r: Result<InstalledVersion, InstallError>)
        requires
            old(self).wf(),
        ensures
            final(self).wf(),
            final(self).root@ == old(self).root@,
            final(self)@ == finish_spec(old(self)@, (plugin@, version@), owner, outcome, now).0,
            r is Ok <==> finish_spec(old(self)@, (plugin@, version@), owner, outcome, now).1 is Ok,
            r matches Err(e) ==> finish_spec(old(self)@, (plugin@, version@), owner, outcome, now).1
                == Err::<(), InstallError>(e),
            r matches Ok(iv) ==> iv.plugin@ == plugin@ && iv.version@ == version@ && iv.installed_at
                == now && iv.install_dir@ == install_dir_spec(old(self).root@, plugin@, version@),
    {
        let i = match self.find(plugin, version) {
            Some(i) => i,
            None => {
                return Err(InstallError::NotInstalling);
            },
        };
        if self.slots[i].state != SlotState::Staging(owner) {
            return Err(InstallError::NotInstalling);
        }
        proof {
            lemma_remove(self.slots@, i as int);
        }
        let mut s = self.slots.remove(i);
        match outcome {
            BackendOutcome::Succeeded => {
                s.state = SlotState::Published;
                s.installed_at = now;
                proof {
                    lemma_push(self.slots@, s);
                }
                self.slots.push(s);
                assert(self@ =~= old(self)@.insert((plugin@, version@), (SlotState::Published, now)));
                Ok(
                    InstalledVersion {
                        plugin: copy_bytes(plugin),
                        version: copy_bytes(version),
                        install_dir: install_dir(&self.root, plugin, version),
                        installed_at: now,
                    },
                )
            },
            BackendOutcome::NotFound => Err(InstallError::NotFound),
            BackendOutcome::NetworkFailure => Err(InstallError::NetworkFailure),
            BackendOutcome::BuildFailure => Err(InstallError::BuildFailure),
        }
    }

    /// Removes a published pair.
    pub fn uninstall(&mut self, plugin: &Vec<u8>, version: &Vec<u8>) -> (r: Result<(), UninstallError>)
        requires
            old(self).wf(),
        ensures
            final(self).wf(),
            final(self).root@ == old(self).root@,
            (final(self)@, r) == uninstall_spec(old(self)@, (plugin@, version@)),
    {
        match self.find(plugin, version) {
            Some(i) => {
                if self.slots[i].state == SlotState::Published {
                    proof {
                        lemma_remove(self.slots@, i as int);
                    }
                    self.slots.remove(i);
                    Ok(())
                } else {
                    Err(UninstallError::NotInstalled)
                }
            },
            None => Err(UninstallError::NotInstalled),
        }
    }

    /// The published versions of a plugin; versions being staged are left
    /// out.
    pub fn installed_versions(&self, plugin: &Vec<u8>) -> (r: Vec<Vec<u8>>)
        requires
            self.wf(),
        ensures
            forall|j: int| 0 <= j < r@.len() ==> installed_spec(self@, (plugin@, (#[trigger] r@[j])@)),
            forall|v: Seq<u8>| installed_spec(self@, (plugin@, v)) ==> exists|j: int|
                0 <= j < r@.len() && (#[trigger] r@[j])@ == v,
    {
        let mut r: Vec<Vec<u8>> = Vec::new();
        let mut i: usize = 0;
        while i < self.slots.len()
            invariant
                self.wf(),
                0 <= i <= self.slots@.len(),
                forall|j: int| 0 <= j < r@.len() ==> installed_spec(self@, (plugin@, (#[trigger] r@[j])@)),
                forall|a: int| 0 <= a < i && (#[trigger] self.slots@[a]).plugin@ == plugin@
                    && self.slots@[a].state == SlotState::Published ==> exists|j: int|
                    0 <= j < r@.len() && (#[trigger] r@[j])@ == self.slots@[a].version@,
            decreases self.slots@.len() - i,
        {
            let ghost before = r@;
            if self.slots[i].state == SlotState::Published && bytes_eq(&self.slots[i].plugin, plugin) {
                proof {
                    lemma_lookup(self.slots@, key_of(self.slots@[i as int]));
                }
                r.push(copy_bytes(&self.slots[i].version));
                assert(r@[before.len() as int]@ == self.slots@[i as int].version@);
            }
            assert forall|a: int| 0 <= a < i + 1 && (#[trigger] self.slots@[a]).plugin@ == plugin@
                && self.slots@[a].state == SlotState::Published implies exists|j: int|
                0 <= j < r@.len() && (#[trigger] r@[j])@ == self.slots@[a].version@ by {
                if a < i {
                    let j = choose|j: int| 0 <= j < before.len() && (#[trigger] before[j])@ == self.slots@[a].version@;
                    assert(r@[j] == before[j]);
                }
            }
            i = i + 1;
        }
        assert forall|v: Seq<u8>| installed_spec(self@, (plugin@, v)) implies exists|j: int|
            0 <= j < r@.len() && (#[trigger] r@[j])@ == v by {
            lemma_lookup(self.slots@, (plugin@, v));
            let a = choose|a: int| 0 <= a < self.slots@.len() && key_of(#[trigger] self.slots@[a]) == (plugin@, v);
            assert(self.slots@[a].plugin@ == plugin@);
        }
        r
    }
}

/// The directory of a published version: `<root>/<plugin>/<version>`.
pub fn install_dir(root: &Vec<u8>, plugin: &Vec<u8>, version: &Vec<u8>) -> (r: Vec<u8>)
    ensures
        r@ == install_dir_spec(root@, plugin@, version@),
{
    let mut out = copy_bytes(root);
    out.push(47u8);
    append_bytes(&mut out, plugin);
    out.push(47u8);
    append_bytes(&mut out, version);
    assert(out@ =~= install_dir_spec(root@, plugin@, version@));
    out
}

/// What an install run does when the pair's lock is held by another run.
#[derive(Clone, Copy, Debug, PartialEq, Eq, Structural)]
pub enum LockWait {
    /// Try the lock again after this many milliseconds.
    RetryAfter(u64),
    /// The wait is over: tell the caller to retry later.
    GiveUp,
}

/// Decides how to wait on a busy lock, having waited `waited` milliseconds
/// out of `timeout`: poll every `poll` milliseconds, never past the timeout,
/// and give up once it is reached.
pub fn on_lock_busy(waited: u64, timeout: u64, poll: u64) -> (r: LockWait)
    requires
        poll > 0,
    ensures
        waited >= timeout ==> r == LockWait::GiveUp,
        waited < timeout ==> r == LockWait::RetryAfter(
            if poll <= timeout - waited { poll } else { (timeout - waited) as u64 },
        ),
{
    if waited >= timeout {
        LockWait::GiveUp
    } else if poll <= timeout - waited {
        LockWait::RetryAfter(poll)
    } else {
        LockWait::RetryAfter(timeout - waited)
    }
}

/// Installing a pair that is not there and then uninstalling it at once
/// leaves it not installed, with no slot of it left, published or staged:
/// the install root is as it was.
pub proof fn lemma_install_then_uninstall(
    m: Map<SlotKey, SlotValue>,
    k: SlotKey,
    owner: u64,
    now: u64,
)
    requires
        !m.contains_key(k),
    ensures
        begin_spec(m, k, owner).1 is Ok,
        finish_spec(begin_spec(m, k, owner).0, k, owner, BackendOutcome::Succeeded, now).1 is Ok,
        installed_spec(finish_spec(begin_spec(m, k, owner).0, k, owner, BackendOutcome::Succeeded, now).0, k),
        uninstall_spec(finish_spec(begin_spec(m, k, owner).0, k, owner, BackendOutcome::Succeeded, now).0, k).1 is Ok,
        !installed_spec(
            uninstall_spec(finish_spec(begin_spec(m, k, owner).0, k, owner, BackendOutcome::Succeeded, now).0, k).0,
            k,
        ),
        uninstall_spec(finish_spec(begin_spec(m, k, owner).0, k, owner, BackendOutcome::Succeeded, now).0, k).0 == m,
{
    let m1 = begin_spec(m, k, owner).0;
    let m2 = finish_spec(m1, k, owner, BackendOutcome::Succeeded, now).0;
    let m3 = uninstall_spec(m2, k).0;
    assert(m3 =~= m);
}

/// Two install runs of one pair are serialized: they cannot both take the
/// staging lock; when the first takes it the second is told that the pair is
/// being installed, cannot finish in its place, and once the first has
/// published it is told that the pair is installed. A reader never sees the
/// pair as installed while it is being staged, and a failed run leaves no
/// slot behind.
pub proof fn lemma_concurrent_installs_serialized(
    m: Map<SlotKey, SlotValue>,
    k: SlotKey,
    a: u64,
    b: u64,
    outcome: BackendOutcome,
    now: u64,
)
    requires
        a != b,
    ensures
        !(begin_spec(m, k, a).1 is Ok && begin_spec(begin_spec(m, k, a).0, k, b).1 is Ok),
        !m.contains_key(k) ==> begin_spec(m, k, a).1 is Ok,
        begin_spec(m, k, a).1 is Ok ==> {
            let m1 = begin_spec(m, k, a).0;
            &&& begin_spec(m1, k, b) == (m1, Err::<(), InstallError>(InstallError::AlreadyInstalling))
            &&& !installed_spec(m1, k)
            &&& finish_spec(m1, k, b, outcome, now) == (m1, Err::<(), InstallError>(InstallError::NotInstalling))
            &&& begin_spec(finish_spec(m1, k, a, BackendOutcome::Succeeded, now).0, k, b).1
                == Err::<(), InstallError>(InstallError::AlreadyInstalled)
            &&& outcome != BackendOutcome::Succeeded ==> !finish_spec(m1, k, a, outcome, now).0.contains_key(k)
        },
{
}

} // verus!
