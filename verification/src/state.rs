//! The state of the chain in two layers: what sealed blocks committed, and
//! above it what the pending block has changed so far.

use crate::felt::Felt;
use crate::keymap::{inserted_all, lemma_inserted_all, touches, Key, KeyMap};
use vstd::prelude::*;

verus! {

/// One storage cell: a key in the storage of the contract at an address.
#[derive(Clone, Copy, Debug)]
pub struct StorageSlot {
    pub address: Felt,
    pub key: Felt,
}

impl Key for StorageSlot {
    /// A cell is filed by the fingerprints of its two words together.
    open spec fn spec_fingerprint(&self) -> u64 {
        self.address.spec_low_u64() ^ self.key.spec_low_u64()
    }

    fn fingerprint(&self) -> (f: u64) {
        self.address.low_u64() ^ self.key.low_u64()
    }

    fn same(&self, other: &Self) -> (b: bool) {
        self.address.equals(&other.address) && self.key.equals(&other.key)
    }
}

/// The compiled code of a contract class. The chain stores and hands out its
/// bytes and never looks into them.
#[derive(Debug)]
pub struct CompiledClass {
    pub bytes: Vec<u8>,
}

/// A class hash together with the compiled class that it identifies.
#[derive(Debug)]
pub struct ClassDefinition {
    pub class_hash: Felt,
    pub class: CompiledClass,
}

/// What the execution of one transaction, or of all transactions of a block,
/// changes in the state. Each list is applied from its first entry to its
/// last.
#[derive(Debug)]
pub struct StateDiff {
    /// Storage cells with their new values.
    pub storage_updates: Vec<(StorageSlot, Felt)>,
    /// Contract addresses with their new nonces.
    pub nonce_updates: Vec<(Felt, Felt)>,
    /// Addresses of newly deployed contracts with their class hashes.
    pub deployed_contracts: Vec<(Felt, Felt)>,
    /// Hashes of newly declared classes with their compiled-class hashes.
    pub declared_classes: Vec<(Felt, Felt)>,
}

/// A state diff as mathematical sequences.
pub struct DiffView {
    pub storage_updates: Seq<(StorageSlot, Felt)>,
    pub nonce_updates: Seq<(Felt, Felt)>,
    pub deployed_contracts: Seq<(Felt, Felt)>,
    pub declared_classes: Seq<(Felt, Felt)>,
}

impl DiffView {
    /// The diff that changes nothing.
    pub open spec fn empty() -> DiffView {
        DiffView {
            storage_updates: Seq::empty(),
            nonce_updates: Seq::empty(),
            deployed_contracts: Seq::empty(),
            declared_classes: Seq::empty(),
        }
    }

    /// The changes of this diff followed by those of `later`.
    pub open spec fn followed_by(self, later: DiffView) -> DiffView {
        DiffView {
            storage_updates: self.storage_updates + later.storage_updates,
            nonce_updates: self.nonce_updates + later.nonce_updates,
            deployed_contracts: self.deployed_contracts + later.deployed_contracts,
            declared_classes: self.declared_classes + later.declared_classes,
        }
    }

    /// Whether the diff writes the storage cell.
    pub open spec fn writes_storage(self, address: Felt, key: Felt) -> bool {
        touches(self.storage_updates, StorageSlot { address, key })
    }
}

impl View for StateDiff {
    type V = DiffView;

    open spec fn view(&self) -> DiffView {
        DiffView {
            storage_updates: self.storage_updates@,
            nonce_updates: self.nonce_updates@,
            deployed_contracts: self.deployed_contracts@,
            declared_classes: self.declared_classes@,
        }
    }
}

/// One layer of state as mathematical maps.
pub struct LayerView {
    pub storage: Map<StorageSlot, Felt>,
    pub nonces: Map<Felt, Felt>,
    pub class_hashes: Map<Felt, Felt>,
    pub compiled_class_hashes: Map<Felt, Felt>,
}

impl LayerView {
    /// The layer that holds nothing.
    pub open spec fn empty() -> LayerView {
        LayerView {
            storage: Map::empty(),
            nonces: Map::empty(),
            class_hashes: Map::empty(),
            compiled_class_hashes: Map::empty(),
        }
    }

    /// This layer with `top` laid over it: where both hold a value, that of
    /// `top` is seen.
    pub open spec fn overlay(self, top: LayerView) -> LayerView {
        LayerView {
            storage: self.storage.union_prefer_right(top.storage),
            nonces: self.nonces.union_prefer_right(top.nonces),
            class_hashes: self.class_hashes.union_prefer_right(top.class_hashes),
            compiled_class_hashes: self.compiled_class_hashes.union_prefer_right(
                top.compiled_class_hashes,
            ),
        }
    }

    /// This layer after the changes of `diff` were written into it.
    pub open spec fn with_diff(self, diff: DiffView) -> LayerView {
        LayerView {
            storage: inserted_all(self.storage, diff.storage_updates),
            nonces: inserted_all(self.nonces, diff.nonce_updates),
            class_hashes: inserted_all(self.class_hashes, diff.deployed_contracts),
            compiled_class_hashes: inserted_all(
                self.compiled_class_hashes,
                diff.declared_classes,
            ),
        }
    }

    /// The value of a storage cell: zero where it was never written.
    pub open spec fn storage_at(self, address: Felt, key: Felt) -> Felt {
        value_or_zero(self.storage, StorageSlot { address, key })
    }

    /// The nonce of a contract: zero where none was ever set.
    pub open spec fn nonce_at(self, address: Felt) -> Felt {
        value_or_zero(self.nonces, address)
    }

    /// The class hash of the contract at an address, if one is deployed there.
    pub open spec fn class_hash_at(self, address: Felt) -> Option<Felt> {
        value_if_any(self.class_hashes, address)
    }

    /// The compiled-class hash of a declared class.
    pub open spec fn compiled_class_hash_at(self, class_hash: Felt) -> Option<Felt> {
        value_if_any(self.compiled_class_hashes, class_hash)
    }
}

/// The word that a map holds for a key, or the zero word where it holds none:
/// what was never set is zero, not missing.
pub open spec fn value_or_zero<K>(m: Map<K, Felt>, key: K) -> Felt {
    if m.contains_key(key) {
        m[key]
    } else {
        Felt::spec_zero()
    }
}

/// The word that a map holds for a key, if any.
pub open spec fn value_if_any<K>(m: Map<K, Felt>, key: K) -> Option<Felt> {
    if m.contains_key(key) {
        Some(m[key])
    } else {
        None
    }
}

impl StateDiff {
    /// A diff that changes nothing.
    pub fn new() -> (diff: StateDiff)
        ensures
            diff@ == DiffView::empty(),
    {
        StateDiff {
            storage_updates: Vec::new(),
            nonce_updates: Vec::new(),
            deployed_contracts: Vec::new(),
            declared_classes: Vec::new(),
        }
    }

    /// Appends the changes of `later` to this diff.
    pub fn extend(&mut self, later: StateDiff)
        ensures
            final(self)@ == old(self)@.followed_by(later@),
    {
        let mut later = later;
        self.storage_updates.append(&mut later.storage_updates);
        self.nonce_updates.append(&mut later.nonce_updates);
        self.deployed_contracts.append(&mut later.deployed_contracts);
        self.declared_classes.append(&mut later.declared_classes);
    }
}

/// One layer of state.
pub struct StateLayer {
    storage: KeyMap<StorageSlot, Felt>,
    nonces: KeyMap<Felt, Felt>,
    class_hashes: KeyMap<Felt, Felt>,
    compiled_class_hashes: KeyMap<Felt, Felt>,
}

impl View for StateLayer {
    type V = LayerView;

    closed spec fn view(&self) -> LayerView {
        LayerView {
            storage: self.storage@,
            nonces: self.nonces@,
            class_hashes: self.class_hashes@,
            compiled_class_hashes: self.compiled_class_hashes@,
        }
    }
}

impl StateLayer {
    /// The invariant of the layer: that of each of its maps.
    pub closed spec fn wf(&self) -> bool {
        &&& self.storage.wf()
        &&& self.nonces.wf()
        &&& self.class_hashes.wf()
        &&& self.compiled_class_hashes.wf()
    }

    /// A layer that holds nothing.
    pub fn new() -> (layer: StateLayer)
        ensures
            layer.wf(),
            layer@ == LayerView::empty(),
    {
        StateLayer {
            storage: KeyMap::new(),
            nonces: KeyMap::new(),
            class_hashes: KeyMap::new(),
            compiled_class_hashes: KeyMap::new(),
        }
    }

    /// Writes the changes of `diff` into the layer.
    pub fn apply(&mut self, diff: &StateDiff)
        requires
            old(self).wf(),
        ensures
            final(self).wf(),
            final(self)@ == old(self)@.with_diff(diff@),
    {
        self.storage.insert_all(&diff.storage_updates);
        self.nonces.insert_all(&diff.nonce_updates);
        self.class_hashes.insert_all(&diff.deployed_contracts);
        self.compiled_class_hashes.insert_all(&diff.declared_classes);
    }

    /// Lays `top` over this layer and keeps the result.
    pub fn absorb(&mut self, top: StateLayer)
        requires
            old(self).wf(),
            top.wf(),
        ensures
            final(self).wf(),
            final(self)@ == old(self)@.overlay(top@),
    {
        let StateLayer { storage, nonces, class_hashes, compiled_class_hashes } = top;
        self.storage.absorb(storage);
        self.nonces.absorb(nonces);
        self.class_hashes.absorb(class_hashes);
        self.compiled_class_hashes.absorb(compiled_class_hashes);
    }
}

/// The state of the chain: a base layer, which sealed blocks have committed,
/// a pending layer above it, which holds what the pending block has changed,
/// and the compiled classes that were declared.
pub struct LayeredState {
    base: StateLayer,
    pending: StateLayer,
    classes: KeyMap<Felt, CompiledClass>,
}

impl LayeredState {
    /// The invariant of the state: that of its layers and maps.
    pub closed spec fn wf(&self) -> bool {
        &&& self.base.wf()
        &&& self.pending.wf()
        &&& self.classes.wf()
    }

    /// The committed layer.
    pub closed spec fn base(&self) -> LayerView {
        self.base@
    }

    /// The layer of changes that are not committed yet.
    pub closed spec fn pending(&self) -> LayerView {
        self.pending@
    }

    /// The compiled classes by class hash.
    pub closed spec fn classes(&self) -> Map<Felt, CompiledClass> {
        self.classes@
    }

    /// What a reader sees: the pending layer laid over the base layer.
    pub open spec fn merged(&self) -> LayerView {
        self.base().overlay(self.pending())
    }

    /// A state in which nothing was ever written.
    pub fn new() -> (state: LayeredState)
        ensures
            state.wf(),
            state.base() == LayerView::empty(),
            state.pending() == LayerView::empty(),
            state.classes() == Map::<Felt, CompiledClass>::empty(),
    {
        LayeredState { base: StateLayer::new(), pending: StateLayer::new(), classes: KeyMap::new() }
    }

    /// The value of a storage cell, from the pending layer where it holds
    /// one, else from the base layer, else zero.
    pub fn storage(&self, address: Felt, key: Felt) -> (value: Felt)
        requires
            self.wf(),
        ensures
            value == self.merged().storage_at(address, key),
    {
        let slot = StorageSlot { address, key };
        match self.pending.storage.get(&slot) {
            Some(v) => *v,
            None => match self.base.storage.get(&slot) {
                Some(v) => *v,
                None => Felt::zero(),
            },
        }
    }

    /// The value of a storage cell as sealed blocks have committed it,
    /// whatever the pending block has changed since.
    pub fn committed_storage(&self, address: Felt, key: Felt) -> (value: Felt)
        requires
            self.wf(),
        ensures
            value == self.base().storage_at(address, key),
    {
        let slot = StorageSlot { address, key };
        match self.base.storage.get(&slot) {
            Some(v) => *v,
            None => Felt::zero(),
        }
    }

    /// The nonce of the contract at an address, from the pending layer where
    /// it holds one, else from the base layer, else zero.
    pub fn nonce(&self, address: Felt) -> (nonce: Felt)
        requires
            self.wf(),
        ensures
            nonce == self.merged().nonce_at(address),
    {
        match self.pending.nonces.get(&address) {
            Some(v) => *v,
            None => match self.base.nonces.get(&address) {
                Some(v) => *v,
                None => Felt::zero(),
            },
        }
    }

    /// The class hash of the contract at an address, if one is deployed there.
    pub fn class_hash_of_contract(&self, address: Felt) -> (class_hash: Option<Felt>)
        requires
            self.wf(),
        ensures
            class_hash == self.merged().class_hash_at(address),
    {
        match self.pending.class_hashes.get(&address) {
            Some(v) => Some(*v),
            None => match self.base.class_hashes.get(&address) {
                Some(v) => Some(*v),
                None => None,
            },
        }
    }

    /// The compiled-class hash that was declared for a class hash.
    pub fn compiled_class_hash_of_class_hash(&self, class_hash: Felt) -> (compiled: Option<Felt>)
        requires
            self.wf(),
        ensures
            compiled == self.merged().compiled_class_hash_at(class_hash),
    {
        match self.pending.compiled_class_hashes.get(&class_hash) {
            Some(v) => Some(*v),
            None => match self.base.compiled_class_hashes.get(&class_hash) {
                Some(v) => Some(*v),
                None => None,
            },
        }
    }

    /// The compiled class with the given hash, if it was declared.
    pub fn class(&self, class_hash: Felt) -> (class: Option<&CompiledClass>)
        requires
            self.wf(),
        ensures
            match class {
                Some(c) => self.classes().contains_key(class_hash) && *c == self.classes()[class_hash],
                None => !self.classes().contains_key(class_hash),
            },
    {
        self.classes.get(&class_hash)
    }

    /// Writes the changes of `diff` into the pending layer. The base layer
    /// stays as it is.
    pub fn apply_diff(&mut self, diff: &StateDiff)
        requires
            old(self).wf(),
        ensures
            final(self).wf(),
            final(self).pending() == old(self).pending().with_diff(diff@),
            final(self).base() == old(self).base(),
            final(self).classes() == old(self).classes(),
    {
        self.pending.apply(diff);
    }

    /// Keeps a compiled class under its hash.
    pub fn declare_class(&mut self, definition: ClassDefinition)
        requires
            old(self).wf(),
        ensures
            final(self).wf(),
            final(self).classes() == old(self).classes().insert(
                definition.class_hash,
                definition.class,
            ),
            final(self).pending() == old(self).pending(),
            final(self).base() == old(self).base(),
    {
        let ClassDefinition { class_hash, class } = definition;
        self.classes.insert(class_hash, class);
    }

    /// Commits the pending layer: lays it over the base layer, keeps the
    /// result as the new base layer, and starts an empty pending layer.
    pub fn commit(&mut self)
        requires
            old(self).wf(),
        ensures
            final(self).wf(),
            final(self).base() == old(self).merged(),
            final(self).pending() == LayerView::empty(),
            final(self).classes() == old(self).classes(),
    {
        let mut top = StateLayer::new();
        std::mem::swap(&mut self.pending, &mut top);
        self.base.absorb(top);
    }
}

/// Committing changes nothing that a reader sees.
pub proof fn lemma_commit_keeps_merged(base: LayerView, pending: LayerView)
    ensures
        base.overlay(pending).overlay(LayerView::empty()) == base.overlay(pending),
{
    let committed = base.overlay(pending);
    let after = committed.overlay(LayerView::empty());
    assert(after.storage =~= committed.storage);
    assert(after.nonces =~= committed.nonces);
    assert(after.class_hashes =~= committed.class_hashes);
    assert(after.compiled_class_hashes =~= committed.compiled_class_hashes);
}

/// A storage cell that neither layer ever held, and that a diff does not
/// write, reads as zero before and after the diff is applied.
pub proof fn lemma_unwritten_storage_is_zero(
    base: LayerView,
    pending: LayerView,
    diff: DiffView,
    address: Felt,
    key: Felt,
)
    requires
        !base.storage.contains_key(StorageSlot { address, key }),
        !pending.storage.contains_key(StorageSlot { address, key }),
        !diff.writes_storage(address, key),
    ensures
        base.overlay(pending).storage_at(address, key) == Felt::spec_zero(),
        base.overlay(pending.with_diff(diff)).storage_at(address, key) == Felt::spec_zero(),
        !pending.with_diff(diff).storage.contains_key(StorageSlot { address, key }),
{
    lemma_inserted_all(pending.storage, diff.storage_updates, StorageSlot { address, key });
}

/// A diff changes the value of no storage cell that it does not write.
pub proof fn lemma_diff_keeps_other_storage(
    base: LayerView,
    pending: LayerView,
    diff: DiffView,
    address: Felt,
    key: Felt,
)
    requires
        !diff.writes_storage(address, key),
    ensures
        base.overlay(pending.with_diff(diff)).storage_at(address, key) == base.overlay(
            pending,
        ).storage_at(address, key),
{
    lemma_inserted_all(pending.storage, diff.storage_updates, StorageSlot { address, key });
}

} // verus!
