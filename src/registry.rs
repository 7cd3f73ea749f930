//! The registry of supported interfaces. It owns its entries; a host that
//! keeps them between calls stores `ERC165::interfaces` and rebuilds the
//! registry with `ERC165::restore`.

use crate::interface_id::{interface_id_from_digest, interface_id_spec, keccak256};
use vstd::prelude::*;
use vstd::string::StringSliceAdditionalSpecFns;

verus! {

/// The signature of the interface that every registry supports from the
/// start: the ability to answer support queries.
pub const SUPPORTS_INTERFACE_SIGNATURE: &'static str = "supports_interface([u8;4])";

/// The identifier of the registry's own interface.
pub open spec fn self_interface_id() -> Seq<u8> {
    interface_id_spec(SUPPORTS_INTERFACE_SIGNATURE.spec_bytes())
}

/// What a registry holds right after construction: its own interface alone.
pub open spec fn initial_registry() -> Map<Seq<u8>, bool> {
    map![self_interface_id() => true]
}

/// What a registry holds after an attempt to register `id`: unchanged when
/// `id` is already there, else `id` added as supported.
pub open spec fn after_register(m: Map<Seq<u8>, bool>, id: Seq<u8>) -> Map<Seq<u8>, bool> {
    if m.contains_key(id) {
        m
    } else {
        m.insert(id, true)
    }
}

/// What an attempt to register `id` returns, given what the registry holds.
pub open spec fn register_result(m: Map<Seq<u8>, bool>, id: Seq<u8>) -> Result<(), RegistryError> {
    if m.contains_key(id) {
        Err(RegistryError::AlreadyRegistered)
    } else {
        Ok(())
    }
}

/// What a registry holds after construction and an attempt to register each
/// of `ids`, in order.
pub open spec fn after_registering_all(ids: Seq<Seq<u8>>) -> Map<Seq<u8>, bool>
    decreases ids.len(),
{
    if ids.len() == 0 {
        initial_registry()
    } else {
        after_register(after_registering_all(ids.drop_last()), ids.last())
    }
}

/// Every entry of the map says "supported": absence is the only way to be
/// unsupported.
pub open spec fn only_true(m: Map<Seq<u8>, bool>) -> bool {
    forall|k: Seq<u8>| m.contains_key(k) ==> #[trigger] m[k]
}

/// The one failure of registration.
#[derive(Debug, Clone, Copy, PartialEq, Eq, Structural)]
pub enum RegistryError {
    /// The identifier was registered before.
    AlreadyRegistered,
}

/// The identifiers that a list of entries names.
pub open spec fn ids_of(entries: Seq<[u8; 4]>) -> Set<Seq<u8>> {
    Set::new(|k: Seq<u8>| exists|i: int| 0 <= i < entries.len() && #[trigger] entries[i]@ == k)
}

/// No identifier appears twice in a list of entries.
pub open spec fn distinct_ids(entries: Seq<[u8; 4]>) -> bool {
    forall|i: int, j: int|
        0 <= i < j < entries.len() ==> #[trigger] entries[i]@ != #[trigger] entries[j]@
}

/// The views of a list of entries, in order.
pub open spec fn id_views(entries: Seq<[u8; 4]>) -> Seq<Seq<u8>> {
    entries.map_values(|a: [u8; 4]| a@)
}

/// Whether two identifiers hold the same bytes.
fn same_id(a: &[u8; 4], b: &[u8; 4]) -> (r: bool)
    ensures
        r == (a@ == b@),
{
    let r = a[0] == b[0] && a[1] == b[1] && a[2] == b[2] && a[3] == b[3];
    proof {
        if r {
            assert(a@ =~= b@);
        } else if a@ == b@ {
            assert(a@[0] == b@[0] && a@[1] == b@[1] && a@[2] == b@[2] && a@[3] == b@[3]);
        }
    }
    r
}

/// A registry of the interfaces that a contract supports. It owns its
/// entries: each registered identifier once, in the order of registration.
pub struct ERC165 {
    supported_interfaces: Vec<[u8; 4]>,
}

impl View for ERC165 {
    type V = Map<Seq<u8>, bool>;

    /// The registered identifiers, each mapped to `true`.
    open spec fn view(&self) -> Map<Seq<u8>, bool> {
        ids_of(self.entries()).mk_map(|k: Seq<u8>| true)
    }
}

impl ERC165 {
    /// The stored entries, in the order of registration.
    pub closed spec fn entries(&self) -> Seq<[u8; 4]> {
        self.supported_interfaces@
    }

    /// Well-formedness: each identifier is stored once, only `true` is ever
    /// stored, every key is an identifier, and the registry's own interface
    /// is always there.
    pub open spec fn wf(&self) -> bool {
        &&& distinct_ids(self.entries())
        &&& only_true(self@)
        &&& forall|k: Seq<u8>| self@.contains_key(k) ==> #[trigger] k.len() == 4
        &&& self@.contains_key(self_interface_id())
    }

    /// Creates a registry that supports its own interface and nothing else.
    pub fn new() -> (r: Self)
        ensures
            r.wf(),
            r@ == initial_registry(),
    {
        let erc165_interface_id = Self::compute_interface_id(
            SUPPORTS_INTERFACE_SIGNATURE.as_bytes(),
        );
        let mut supported_interfaces: Vec<[u8; 4]> = Vec::new();
        supported_interfaces.push(erc165_interface_id);
        let instance = ERC165 { supported_interfaces };
        proof {
            crate::interface_id::lemma_interface_id_len(SUPPORTS_INTERFACE_SIGNATURE.spec_bytes());
            assert(instance.entries()[0]@ == self_interface_id());
            assert(ids_of(instance.entries()) =~= set![self_interface_id()]);
        }
        assert(instance@ =~= initial_registry());
        instance
    }

    /// Computes the identifier of the interface with the given signature:
    /// the first four bytes of its Keccak-256 digest.
    pub fn compute_interface_id(signature: &[u8]) -> (r: [u8; 4])
        ensures
            r@ == interface_id_spec(signature@),
    {
        let digest = keccak256(signature);
        interface_id_from_digest(&digest)
    }

    /// Whether `interface_id` is among the entries.
    fn holds(&self, interface_id: &[u8; 4]) -> (r: bool)
        ensures
            r == self@.contains_key(interface_id@),
    {
        let mut i: usize = 0;
        while i < self.supported_interfaces.len()
            invariant
                0 <= i <= self.entries().len(),
                forall|j: int| 0 <= j < i ==> self.entries()[j]@ != interface_id@,
            decreases self.entries().len() - i,
        {
            if same_id(&self.supported_interfaces[i], interface_id) {
                assert(ids_of(self.entries()).contains(interface_id@));
                return true;
            }
            i = i + 1;
        }
        false
    }

    /// Registers `interface_id` as supported; fails, changing nothing, when
    /// it was registered before.
    pub fn add_interface(&mut self, interface_id: [u8; 4]) -> (r: Result<(), RegistryError>)
        requires
            old(self).wf(),
        ensures
            final(self).wf(),
            final(self)@ == after_register(old(self)@, interface_id@),
            r == register_result(old(self)@, interface_id@),
    {
        if self.holds(&interface_id) {
            return Err(RegistryError::AlreadyRegistered);
        }
        let ghost before = self.entries();
        self.supported_interfaces.push(interface_id);
        proof {
            let after = self.entries();
            assert(after == before.push(interface_id));
            assert forall|k: Seq<u8>| ids_of(before).contains(k) implies ids_of(after).contains(k) by {
                let i = choose|i: int| 0 <= i < before.len() && #[trigger] before[i]@ == k;
                assert(after[i]@ == k);
            }
            assert(after[before.len() as int]@ == interface_id@);
            assert(ids_of(after) =~= ids_of(before).insert(interface_id@));
            assert(self@ =~= old(self)@.insert(interface_id@, true));
        }
        Ok(())
    }

    /// The registered identifiers, each once, in the order of registration:
    /// what a host keeps to rebuild the registry with `restore`.
    pub fn interfaces(&self) -> (r: Vec<[u8; 4]>)
        ensures
            r@ == self.entries(),
    {
        let mut r: Vec<[u8; 4]> = Vec::new();
        let mut i: usize = 0;
        while i < self.supported_interfaces.len()
            invariant
                0 <= i <= self.entries().len(),
                r@ == self.entries().take(i as int),
            decreases self.entries().len() - i,
        {
            r.push(self.supported_interfaces[i]);
            i = i + 1;
            assert(r@ =~= self.entries().take(i as int));
        }
        assert(r@ =~= self.entries());
        r
    }

    /// Rebuilds a registry from identifiers kept by a host: a new registry
    /// with each of `ids` registered in order, those already there skipped.
    pub fn restore(ids: &Vec<[u8; 4]>) -> (r: Self)
        ensures
            r.wf(),
            r@ == after_registering_all(id_views(ids@)),
    {
        let mut registry = Self::new();
        let mut i: usize = 0;
        while i < ids.len()
            invariant
                0 <= i <= ids@.len(),
                registry.wf(),
                registry@ == after_registering_all(id_views(ids@.take(i as int))),
            decreases ids@.len() - i,
        {
            let _ = registry.add_interface(ids[i]);
            proof {
                let next = id_views(ids@.take(i + 1));
                assert(next.drop_last() =~= id_views(ids@.take(i as int)));
                assert(next.last() == ids@[i as int]@);
            }
            i = i + 1;
        }
        assert(ids@.take(ids@.len() as int) =~= ids@);
        registry
    }

    /// Whether `interface_id` is registered.
    pub fn supports_interface(&self, interface_id: [u8; 4]) -> (r: bool)
        requires
            self.wf(),
        ensures
            r == self@.contains_key(interface_id@),
    {
        self.holds(&interface_id)
    }
}

/// A fresh registry supports the interface whose signature is
/// `supports_interface([u8;4])`.
pub proof fn lemma_self_registration()
    ensures
        initial_registry().contains_key(interface_id_spec(SUPPORTS_INTERFACE_SIGNATURE.spec_bytes())),
{
}

/// An identifier that is not the registry's own and that no registration
/// named is not supported, whatever was registered after construction.
pub proof fn lemma_unknown_by_default(ids: Seq<Seq<u8>>, f: Seq<u8>)
    requires
        f != self_interface_id(),
        !ids.contains(f),
    ensures
        !after_registering_all(ids).contains_key(f),
    decreases ids.len(),
{
    if ids.len() > 0 {
        let rest = ids.drop_last();
        assert forall|i: int| 0 <= i < rest.len() implies rest[i] != f by {
            assert(ids[i] == rest[i]);
        }
        lemma_unknown_by_default(rest, f);
        assert(ids[ids.len() - 1] != f);
    }
}

/// Registering an identifier that was not registered succeeds, and the
/// identifier is supported afterwards.
pub proof fn lemma_registration_effect(m: Map<Seq<u8>, bool>, f: Seq<u8>)
    requires
        !m.contains_key(f),
    ensures
        register_result(m, f) == Ok::<(), RegistryError>(()),
        after_register(m, f).contains_key(f),
        after_register(m, f)[f],
{
}

/// Registering the same identifier a second time fails with
/// `AlreadyRegistered` and leaves the registry as the first registration
/// left it, with the identifier still marked supported.
pub proof fn lemma_no_double_registration(m: Map<Seq<u8>, bool>, f: Seq<u8>)
    requires
        only_true(m),
    ensures
        register_result(after_register(m, f), f) == Err::<(), RegistryError>(
            RegistryError::AlreadyRegistered,
        ),
        after_register(after_register(m, f), f) == after_register(m, f),
        after_register(after_register(m, f), f)[f],
{
}

/// Registering a list of identifiers after construction leaves exactly the
/// registry's own interface and the listed ones, each marked supported.
pub proof fn lemma_after_registering_all(entries: Seq<[u8; 4]>)
    ensures
        after_registering_all(id_views(entries)) == ids_of(entries).insert(self_interface_id()).mk_map(
            |k: Seq<u8>| true,
        ),
    decreases entries.len(),
{
    let views = id_views(entries);
    if entries.len() == 0 {
        assert(ids_of(entries) =~= Set::<Seq<u8>>::empty());
        assert(initial_registry() =~= set![self_interface_id()].mk_map(|k: Seq<u8>| true));
        assert(ids_of(entries).insert(self_interface_id()) =~= set![self_interface_id()]);
    } else {
        let rest = entries.drop_last();
        lemma_after_registering_all(rest);
        assert(views.drop_last() =~= id_views(rest));
        let x = entries.last()@;
        assert(views.last() == x);
        assert(ids_of(entries) =~= ids_of(rest).insert(x)) by {
            assert forall|k: Seq<u8>| ids_of(entries).contains(k) implies ids_of(rest).insert(x).contains(k) by {
                let i = choose|i: int| 0 <= i < entries.len() && #[trigger] entries[i]@ == k;
                if i < rest.len() {
                    assert(rest[i]@ == k);
                }
            }
            assert forall|k: Seq<u8>| ids_of(rest).contains(k) implies ids_of(entries).contains(k) by {
                let i = choose|i: int| 0 <= i < rest.len() && #[trigger] rest[i]@ == k;
                assert(entries[i]@ == k);
            }
            assert(entries[entries.len() - 1]@ == x);
        }
        assert(after_registering_all(views) =~= ids_of(entries).insert(self_interface_id()).mk_map(
            |k: Seq<u8>| true,
        ));
    }
}

/// Rebuilding a registry from the identifiers it lists gives the same
/// registry.
pub proof fn lemma_restore_round_trip(r: ERC165)
    requires
        r.wf(),
    ensures
        after_registering_all(id_views(r.entries())) == r@,
{
    lemma_after_registering_all(r.entries());
    assert(ids_of(r.entries()).insert(self_interface_id()) =~= ids_of(r.entries()));
    assert(after_registering_all(id_views(r.entries())) =~= r@);
}

} // verus!
