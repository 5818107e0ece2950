//! The symbol scopes of a closed dependency graph.

use crate::address::TargetAddr;
use crate::dynamic_linker::artifact::{ImageId, ImageOwnership};
use crate::dynamic_linker::graph::{DependencyGraph, DependencyNode};
use crate::dynamic_linker::symbol::{
    lemma_lookup_from, lookup_from, SymbolBinding, SymbolDefinition, SymbolEntry, SymbolTable,
    SymbolType, SymbolVisibility,
};
use crate::error::{
    fail_at, failure, ErrorContext, LoadError, LoadErrorKind, LoadResult, LoadStage,
};
use crate::identity::clear_mode_bit;
use vstd::prelude::*;

verus! {

/// The region that the target of a symbol has to lie in.
#[derive(Clone, Copy, Debug, PartialEq, Eq, Structural)]
pub enum SymbolRegionKind {
    Executable,
    Readable,
}

impl SymbolRegionKind {
    pub open spec fn type_spec(symbol_type: SymbolType) -> Self {
        match symbol_type {
            SymbolType::Func => SymbolRegionKind::Executable,
            _ => SymbolRegionKind::Readable,
        }
    }

    #[inline]
    pub fn for_type(symbol_type: SymbolType) -> (r: Self)
        ensures
            r == Self::type_spec(symbol_type),
    {
        match symbol_type {
            SymbolType::Func => SymbolRegionKind::Executable,
            SymbolType::Object | SymbolType::NoType => SymbolRegionKind::Readable,
        }
    }
}

/// A symbol that was found.
///
/// The address of a function keeps its mode bit; its canonical address does not
/// have it.
#[derive(Clone, Copy, Debug, PartialEq, Eq, Structural)]
pub struct ResolvedSymbol {
    pub owner: ImageId,
    pub address: TargetAddr,
    pub canonical: TargetAddr,
    pub size: u64,
    pub binding: SymbolBinding,
    pub region: SymbolRegionKind,
}

impl ResolvedSymbol {
    pub open spec fn entry_spec(owner: ImageId, entry: SymbolEntry) -> Self {
        ResolvedSymbol {
            owner,
            address: entry.value,
            canonical: if entry.symbol_type == SymbolType::Func {
                TargetAddr(clear_mode_bit(entry.value.0))
            } else {
                entry.value
            },
            size: entry.size,
            binding: entry.binding,
            region: SymbolRegionKind::type_spec(entry.symbol_type),
        }
    }

    #[inline]
    fn from_entry(owner: ImageId, entry: &SymbolEntry) -> (r: Self)
        ensures
            r == Self::entry_spec(owner, *entry),
    {
        let address: TargetAddr = entry.value();
        let canonical: TargetAddr = match entry.symbol_type() {
            SymbolType::Func => TargetAddr::new(address.get() - address.get() % 2),
            _ => address,
        };
        ResolvedSymbol {
            owner,
            address,
            canonical,
            size: entry.size(),
            binding: entry.binding(),
            region: SymbolRegionKind::for_type(entry.symbol_type()),
        }
    }

    #[inline]
    pub fn owner(&self) -> (r: ImageId)
        ensures
            r == self.owner,
    {
        self.owner
    }

    #[inline]
    pub fn address(&self) -> (r: TargetAddr)
        ensures
            r == self.address,
    {
        self.address
    }

    #[inline]
    pub fn canonical(&self) -> (r: TargetAddr)
        ensures
            r == self.canonical,
    {
        self.canonical
    }

    #[inline]
    pub fn size(&self) -> (r: u64)
        ensures
            r == self.size,
    {
        self.size
    }

    #[inline]
    pub fn binding(&self) -> (r: SymbolBinding)
        ensures
            r == self.binding,
    {
        self.binding
    }

    #[inline]
    pub fn region(&self) -> (r: SymbolRegionKind)
        ensures
            r == self.region,
    {
        self.region
    }
}

/// What an image contributes to the scopes: the scope it belongs to and the
/// indices of its protected definitions, to which its own references always bind.
pub struct ScopeImage {
    pub owner: ImageId,
    pub ownership: ImageOwnership,
    pub protected: Vec<usize>,
}

impl ScopeImage {
    fn is_protected(&self, index: usize) -> (r: bool)
        ensures
            r == self.protected@.contains(index),
    {
        let mut at: usize = 0;
        while at < self.protected.len()
            invariant
                at <= self.protected@.len(),
                forall|i: int| 0 <= i < at ==> self.protected@[i] != index,
            decreases self.protected@.len() - at,
        {
            if self.protected[at] == index {
                return true;
            }
            at = at + 1;
        }
        false
    }

    #[inline]
    pub fn owner(&self) -> (r: ImageId)
        ensures
            r == self.owner,
    {
        self.owner
    }

    #[inline]
    pub fn ownership(&self) -> (r: ImageOwnership)
        ensures
            r == self.ownership,
    {
        self.ownership
    }
}

/// Images in the order in which they are searched.
pub struct SymbolScope {
    pub ordered_images: Vec<ImageId>,
}

impl SymbolScope {
    #[inline]
    pub fn ordered_images(&self) -> (r: &[ImageId])
        ensures
            r@ == self.ordered_images@,
    {
        self.ordered_images.as_slice()
    }
}

/// The frozen scopes of a link session.
///
/// Application images search the session's own images first and the system images
/// after them, each in discovery order. System images search system images only,
/// so that none of their references binds to an application.
pub struct ScopeSet {
    pub application: SymbolScope,
    pub system: SymbolScope,
    pub per_image: Vec<ScopeImage>,
}

/// Whether an image belongs to the system.
pub open spec fn system_owned(ownership: ImageOwnership) -> bool {
    ownership != ImageOwnership::SessionPrivate
}

/// Those of the first `k` images that belong to the system, or those that do not,
/// in discovery order.
pub open spec fn owned_images(nodes: Seq<DependencyNode>, k: int, system: bool) -> Seq<ImageId>
    decreases k,
{
    if k <= 0 {
        Seq::empty()
    } else if system_owned(nodes[k - 1].ownership) == system {
        owned_images(nodes, k - 1, system).push(nodes[k - 1].id)
    } else {
        owned_images(nodes, k - 1, system)
    }
}

/// Whether a symbol is protected: exported, but always the choice of its own
/// image.
pub open spec fn protected_entry(entry: SymbolEntry) -> bool {
    &&& entry.definition == SymbolDefinition::Defined
    &&& entry.visibility == SymbolVisibility::Protected
    &&& entry.binding == SymbolBinding::Global || entry.binding == SymbolBinding::Weak
}

/// The indices of the protected ones of the first `k` symbols.
pub open spec fn protected_indices(entries: Seq<SymbolEntry>, k: int) -> Seq<usize>
    decreases k,
{
    if k <= 0 {
        Seq::empty()
    } else if protected_entry(entries[k - 1]) {
        protected_indices(entries, k - 1).push((k - 1) as usize)
    } else {
        protected_indices(entries, k - 1)
    }
}

/// Whether other images can bind to a symbol.
pub open spec fn exportable(entry: SymbolEntry) -> bool {
    &&& entry.definition == SymbolDefinition::Defined
    &&& entry.binding == SymbolBinding::Global || entry.binding == SymbolBinding::Weak
    &&& entry.visibility == SymbolVisibility::Default || entry.visibility
        == SymbolVisibility::Protected
}

fn collect_protected(table: &SymbolTable) -> (r: Vec<usize>)
    ensures
        r@ == protected_indices(table.entries@, table.entries@.len() as int),
{
    let mut protected: Vec<usize> = Vec::new();
    let mut index: usize = 0;
    while index < table.entries.len()
        invariant
            index <= table.entries@.len(),
            protected@ == protected_indices(table.entries@, index as int),
        decreases table.entries@.len() - index,
    {
        let entry: &SymbolEntry = &table.entries[index];
        let exported: bool = match entry.binding() {
            SymbolBinding::Global | SymbolBinding::Weak => true,
            SymbolBinding::Local => false,
        };
        if entry.definition() == SymbolDefinition::Defined && entry.visibility()
            == SymbolVisibility::Protected && exported {
            protected.push(index);
        }
        index = index + 1;
    }
    protected
}

fn is_exportable(entry: &SymbolEntry) -> (r: bool)
    ensures
        r == exportable(*entry),
{
    let bound: bool = match entry.binding() {
        SymbolBinding::Global | SymbolBinding::Weak => true,
        SymbolBinding::Local => false,
    };
    let visible: bool = match entry.visibility() {
        SymbolVisibility::Default | SymbolVisibility::Protected => true,
        SymbolVisibility::Internal | SymbolVisibility::Hidden => false,
    };
    entry.definition() == SymbolDefinition::Defined && bound && visible
}

/// The failure of a scope that cannot be frozen.
pub open spec fn scope_failure(kind: LoadErrorKind) -> LoadError {
    failure(LoadStage::Scope, kind, ErrorContext::Nothing)
}

/// What image `image` offers for `name`.
pub open spec fn offered(symbols: Seq<&SymbolTable>, image: ImageId, name: Seq<u8>) -> Option<
    ResolvedSymbol,
> {
    if image.0 >= symbols.len() {
        None
    } else {
        let entries = symbols[image.0 as int].entries@;
        match lookup_from(entries, name, 0) {
            Some(i) => if exportable(entries[i]) {
                Some(ResolvedSymbol::entry_spec(image, entries[i]))
            } else {
                None
            },
            None => None,
        }
    }
}

/// The first offer from `from` on with this binding.
pub open spec fn first_offer(
    order: Seq<ImageId>,
    symbols: Seq<&SymbolTable>,
    name: Seq<u8>,
    binding: SymbolBinding,
    from: int,
) -> Option<ResolvedSymbol>
    decreases order.len() - from,
{
    if from >= order.len() {
        None
    } else {
        match offered(symbols, order[from], name) {
            Some(symbol) => if symbol.binding == binding {
                Some(symbol)
            } else {
                first_offer(order, symbols, name, binding, from + 1)
            },
            None => first_offer(order, symbols, name, binding, from + 1),
        }
    }
}

/// The first strong offer in search order, or else the first weak one.
pub open spec fn search(order: Seq<ImageId>, symbols: Seq<&SymbolTable>, name: Seq<u8>) -> Option<
    ResolvedSymbol,
> {
    match first_offer(order, symbols, name, SymbolBinding::Global, 0) {
        Some(symbol) => Some(symbol),
        None => first_offer(order, symbols, name, SymbolBinding::Weak, 0),
    }
}

impl ScopeSet {
    /// Whether the scopes are those of a graph with these symbol tables.
    pub open spec fn frozen_from(self, graph: DependencyGraph, symbols: Seq<&SymbolTable>) -> bool {
        let n = graph.nodes@.len() as int;
        let system = owned_images(graph.nodes@, n, true);
        &&& self.application.ordered_images@ == owned_images(graph.nodes@, n, false) + system
        &&& self.system.ordered_images@ == system
        &&& self.per_image@.len() == n
        &&& forall|i: int|
            0 <= i < n ==> {
                &&& (#[trigger] self.per_image@[i]).owner == graph.nodes@[i].id
                &&& self.per_image@[i].ownership == graph.nodes@[i].ownership
                &&& self.per_image@[i].protected@ == protected_indices(
                    symbols[i].entries@,
                    symbols[i].entries@.len() as int,
                )
            }
    }

    /// Whether `requester` resolves `index` to itself.
    pub open spec fn self_first(self, requester: ImageId, index: int) -> bool {
        requester.0 < self.per_image@.len() && self.per_image@[requester.0 as int].protected@.contains(
            index as usize,
        )
    }

    /// The images that `requester` searches.
    pub open spec fn searched_by(self, requester: ImageId) -> Seq<ImageId> {
        if requester.0 < self.per_image@.len() && system_owned(
            self.per_image@[requester.0 as int].ownership,
        ) {
            self.system.ordered_images@
        } else {
            self.application.ordered_images@
        }
    }

    /// What a reference of `requester` to `name` binds to: its own protected
    /// definition, or the choice of its scope.
    pub open spec fn resolve_spec(
        self,
        symbols: Seq<&SymbolTable>,
        requester: ImageId,
        name: Seq<u8>,
    ) -> Option<ResolvedSymbol> {
        let own = if requester.0 < symbols.len() {
            lookup_from(symbols[requester.0 as int].entries@, name, 0)
        } else {
            None
        };
        if own is Some && self.self_first(requester, own->0) {
            Some(
                ResolvedSymbol::entry_spec(
                    requester,
                    symbols[requester.0 as int].entries@[own->0],
                ),
            )
        } else {
            search(self.searched_by(requester), symbols, name)
        }
    }

    /// Freezes a closed dependency graph. Every image needs its symbol table.
    pub fn freeze(graph: &DependencyGraph, symbols: &Vec<&SymbolTable>) -> (r: LoadResult<Self>)
        requires
            graph.wf(),
        ensures
            match r {
                Ok(scopes) => symbols@.len() >= graph.nodes@.len() && scopes.frozen_from(
                    *graph,
                    symbols@,
                ),
                Err(error) => symbols@.len() < graph.nodes@.len() && error == scope_failure(
                    LoadErrorKind::BadElf,
                ),
            },
    {
        let mut private: Vec<ImageId> = Vec::new();
        let mut system: Vec<ImageId> = Vec::new();
        let mut per_image: Vec<ScopeImage> = Vec::new();
        let mut index: usize = 0;
        while index < graph.nodes.len()
            invariant
                index <= graph.nodes@.len(),
                graph.wf(),
                    index <= symbols@.len(),
                private@ == owned_images(graph.nodes@, index as int, false),
                system@ == owned_images(graph.nodes@, index as int, true),
                per_image@.len() == index,
                forall|i: int|
                    0 <= i < index ==> {
                        &&& (#[trigger] per_image@[i]).owner == graph.nodes@[i].id
                        &&& per_image@[i].ownership == graph.nodes@[i].ownership
                        &&& per_image@[i].protected@ == protected_indices(
                            symbols@[i].entries@,
                            symbols@[i].entries@.len() as int,
                        )
                    },
            decreases graph.nodes@.len() - index,
        {
            let node = &graph.nodes[index];
            match node.ownership() {
                ImageOwnership::SessionPrivate => {
                    private.push(node.id());
                },
                ImageOwnership::SystemCandidate | ImageOwnership::ExternalReady => {
                    system.push(node.id());
                },
            }
            assert(graph.nodes@[index as int].id.0 == index);
            if index >= symbols.len() {
                return Err(
                    fail_at(LoadStage::Scope, LoadErrorKind::BadElf, ErrorContext::Nothing),
                );
            }
            let protected = collect_protected(symbols[index]);
            per_image.push(
                ScopeImage { owner: node.id(), ownership: node.ownership(), protected },
            );
            index = index + 1;
        }
        let mut application = private;
        let ghost own = application@;
        let mut at: usize = 0;
        assert(application@ =~= own + system@.subrange(0, 0));
        while at < system.len()
            invariant
                at <= system@.len(),
                application@ == own + system@.subrange(0, at as int),
            decreases system@.len() - at,
        {
            application.push(system[at]);
            assert(application@ =~= own + system@.subrange(0, at + 1));
            at = at + 1;
        }
        assert(system@.subrange(0, at as int) =~= system@);
        Ok(
            ScopeSet {
                application: SymbolScope { ordered_images: application },
                system: SymbolScope { ordered_images: system },
                per_image,
            },
        )
    }

    /// Resolves a global or weak reference of `requester` by name.
    ///
    /// Nothing found is not yet an error: that depends on the binding of the
    /// reference.
    pub fn resolve_name(&self, symbols: &Vec<&SymbolTable>, requester: ImageId, name: &[u8]) -> (r:
        Option<ResolvedSymbol>)
        ensures
            r == self.resolve_spec(symbols@, requester, name@),
    {
        let own: usize = requester.get() as usize;
        if own < symbols.len() {
            let table: &SymbolTable = symbols[own];
            if let Some(index) = table.lookup(name) {
                let protected: bool = own < self.per_image.len()
                    && self.per_image[own].is_protected(index);
                if protected {
                    if let Some(entry) = table.entry(index) {
                        return Some(ResolvedSymbol::from_entry(requester, entry));
                    }
                }
            }
        }
        let ghost order = self.searched_by(requester);
        let scope: &SymbolScope = self.scope_for(requester);
        let mut weak: Option<ResolvedSymbol> = None;
        let mut index: usize = 0;
        while index < scope.ordered_images.len()
            invariant
                index <= order.len(),
                order == scope.ordered_images@,
                    self.resolve_spec(symbols@, requester, name@) == search(order, symbols@, name@),
                first_offer(order, symbols@, name@, SymbolBinding::Global, 0) == first_offer(
                    order,
                    symbols@,
                    name@,
                    SymbolBinding::Global,
                    index as int,
                ),
                weak is Some ==> first_offer(order, symbols@, name@, SymbolBinding::Weak, 0)
                    == weak,
                weak is None ==> first_offer(order, symbols@, name@, SymbolBinding::Weak, 0)
                    == first_offer(order, symbols@, name@, SymbolBinding::Weak, index as int),
            decreases order.len() - index,
        {
            let image: ImageId = scope.ordered_images[index];
            if let Some(symbol) = offer(symbols, image, name) {
                match symbol.binding() {
                    SymbolBinding::Global => return Some(symbol),
                    SymbolBinding::Weak => {
                        if weak.is_none() {
                            weak = Some(symbol);
                        }
                    },
                    SymbolBinding::Local => {},
                }
            }
            index = index + 1;
        }
        weak
    }

    /// Resolves a symbol by its index in its own image.
    pub fn resolve_index(&self, symbols: &Vec<&SymbolTable>, owner: ImageId, index: u32) -> (r:
        Option<ResolvedSymbol>)
        ensures
            r == (if owner.0 < symbols@.len() && index < symbols@[owner.0 as int].entries@.len()
                && symbols@[owner.0 as int].entries@[index as int].definition
                == SymbolDefinition::Defined {
                Some(
                    ResolvedSymbol::entry_spec(
                        owner,
                        symbols@[owner.0 as int].entries@[index as int],
                    ),
                )
            } else {
                None
            }),
    {
        if (owner.get() as usize) < symbols.len() {
            if let Some(entry) = symbols[owner.get() as usize].entry(index as usize) {
                if entry.definition() == SymbolDefinition::Defined {
                    return Some(ResolvedSymbol::from_entry(owner, entry));
                }
            }
        }
        None
    }

    #[inline]
    pub fn application(&self) -> (r: &SymbolScope)
        ensures
            *r == self.application,
    {
        &self.application
    }

    #[inline]
    pub fn system(&self) -> (r: &SymbolScope)
        ensures
            *r == self.system,
    {
        &self.system
    }

    #[inline]
    pub fn per_image(&self) -> (r: &[ScopeImage])
        ensures
            r@ == self.per_image@,
    {
        self.per_image.as_slice()
    }

    fn scope_for(&self, requester: ImageId) -> (r: &SymbolScope)
        ensures
            r.ordered_images@ == self.searched_by(requester),
    {
        let own: usize = requester.get() as usize;
        let is_system: bool = own < self.per_image.len() && self.per_image[own].ownership()
            != ImageOwnership::SessionPrivate;
        if is_system {
            &self.system
        } else {
            &self.application
        }
    }
}

fn offer(symbols: &Vec<&SymbolTable>, image: ImageId, name: &[u8]) -> (r: Option<ResolvedSymbol>)
    ensures
        r == offered(symbols@, image, name@),
{
    if image.get() as usize >= symbols.len() {
        return None;
    }
    let table: &SymbolTable = symbols[image.get() as usize];
    match table.lookup(name) {
        Some(index) => match table.entry(index) {
            Some(entry) => if is_exportable(entry) {
                Some(ResolvedSymbol::from_entry(image, entry))
            } else {
                None
            },
            None => None,
        },
        None => None,
    }
}

proof fn lemma_first_offer(
    order: Seq<ImageId>,
    symbols: Seq<&SymbolTable>,
    name: Seq<u8>,
    binding: SymbolBinding,
    from: int,
)
    requires
        0 <= from <= order.len(),
    ensures
        match first_offer(order, symbols, name, binding, from) {
            Some(symbol) => exists|i: int|
                from <= i < order.len() && #[trigger] offered(symbols, order[i], name) == Some(
                    symbol,
                ) && symbol.binding == binding,
            None => forall|i: int|
                from <= i < order.len() ==> (#[trigger] offered(
                    symbols,
                    order[i],
                    name,
                ) matches Some(symbol) ==> symbol.binding != binding),
        },
    decreases order.len() - from,
{
    if from < order.len() {
        lemma_first_offer(order, symbols, name, binding, from + 1);
        match offered(symbols, order[from], name) {
            Some(symbol) => {
                if symbol.binding == binding {
                    assert(offered(symbols, order[from], name) == Some(symbol));
                }
            },
            None => {},
        }
    }
}

proof fn lemma_first_offer_place(
    order: Seq<ImageId>,
    symbols: Seq<&SymbolTable>,
    name: Seq<u8>,
    binding: SymbolBinding,
    from: int,
) -> (at: int)
    requires
        0 <= from <= order.len(),
    ensures
        from <= at <= order.len(),
        first_offer(order, symbols, name, binding, from) == if at < order.len() {
            offered(symbols, order[at], name)
        } else {
            None
        },
        at < order.len() ==> (offered(symbols, order[at], name) matches Some(symbol)
            && symbol.binding == binding),
        forall|p: int|
            from <= p < at ==> (#[trigger] offered(symbols, order[p], name) matches Some(other)
                ==> other.binding != binding),
    decreases order.len() - from,
{
    if from >= order.len() {
        from
    } else {
        let here = offered(symbols, order[from], name);
        if here matches Some(symbol) && symbol.binding == binding {
            from
        } else {
            lemma_first_offer_place(order, symbols, name, binding, from + 1)
        }
    }
}

/// The place of the choice in a searched order: no other place offers a stronger
/// definition, and no earlier one an equal.
proof fn lemma_search_place(
    order: Seq<ImageId>,
    symbols: Seq<&SymbolTable>,
    name: Seq<u8>,
) -> (at: int)
    ensures
        0 <= at <= order.len(),
        search(order, symbols, name) == if at < order.len() {
            offered(symbols, order[at], name)
        } else {
            None
        },
        at < order.len() ==> offered(symbols, order[at], name) is Some,
        forall|p: int|
            0 <= p < order.len() && p != at ==> (#[trigger] offered(
                symbols,
                order[p],
                name,
            ) matches Some(other) ==> {
                &&& at < order.len()
                &&& {
                    let chosen = offered(symbols, order[at], name)->0;
                    ||| chosen.binding is Global && other.binding is Weak
                    ||| chosen.binding == other.binding && at < p
                }
            }),
{
    let strong = lemma_first_offer_place(order, symbols, name, SymbolBinding::Global, 0);
    let weak = lemma_first_offer_place(order, symbols, name, SymbolBinding::Weak, 0);
    assert forall|p: int| 0 <= p < order.len() implies (#[trigger] offered(
        symbols,
        order[p],
        name,
    ) matches Some(other) ==> other.binding is Global || other.binding is Weak) by {}
    if strong < order.len() {
        strong
    } else {
        weak
    }
}

proof fn lemma_owned_images(nodes: Seq<DependencyNode>, k: int, system: bool, i: int)
    requires
        0 <= k <= nodes.len(),
        0 <= i < owned_images(nodes, k, system).len(),
        forall|n: int| 0 <= n < nodes.len() ==> (#[trigger] nodes[n]).id.0 == n,
    ensures
        owned_images(nodes, k, system)[i].0 < k,
        system_owned(nodes[owned_images(nodes, k, system)[i].0 as int].ownership) == system,
    decreases k,
{
    if k > 0 {
        if system_owned(nodes[k - 1].ownership) == system {
            if i < owned_images(nodes, k - 1, system).len() {
                lemma_owned_images(nodes, k - 1, system, i);
            }
        } else {
            lemma_owned_images(nodes, k - 1, system, i);
        }
    }
}

/// A reference of a system image never binds to an image of the session itself.
pub proof fn system_images_bind_to_system_images(
    scopes: ScopeSet,
    graph: DependencyGraph,
    symbols: Seq<&SymbolTable>,
    requester: ImageId,
    name: Seq<u8>,
)
    requires
        graph.wf(),
        scopes.frozen_from(graph, symbols),
        requester.0 < graph.nodes@.len(),
        system_owned(graph.nodes@[requester.0 as int].ownership),
    ensures
        scopes.resolve_spec(symbols, requester, name) matches Some(symbol) ==> symbol.owner.0
            < graph.nodes@.len() && system_owned(
            graph.nodes@[symbol.owner.0 as int].ownership,
        ),
{
    assert(scopes.per_image@[requester.0 as int].ownership
        == graph.nodes@[requester.0 as int].ownership);
    let order = scopes.searched_by(requester);
    let n = graph.nodes@.len() as int;
    assert(order == owned_images(graph.nodes@, n, true));
    lemma_first_offer(order, symbols, name, SymbolBinding::Global, 0);
    lemma_first_offer(order, symbols, name, SymbolBinding::Weak, 0);
    if let Some(symbol) = search(order, symbols, name) {
        let i = choose|i: int|
            0 <= i < order.len() && #[trigger] offered(symbols, order[i], name) == Some(symbol);
        assert(symbol.owner == order[i]);
        lemma_owned_images(graph.nodes@, n, true, i);
    }
}

/// A weak definition is chosen only where no searched image offers a strong one.
pub proof fn strong_definitions_win(order: Seq<ImageId>, symbols: Seq<&SymbolTable>, name: Seq<u8>)
    ensures
        search(order, symbols, name) matches Some(symbol) ==> symbol.binding
            == SymbolBinding::Global || forall|i: int|
            0 <= i < order.len() ==> (#[trigger] offered(symbols, order[i], name) matches Some(
                other,
            ) ==> other.binding != SymbolBinding::Global),
{
    lemma_first_offer(order, symbols, name, SymbolBinding::Global, 0);
    lemma_first_offer(order, symbols, name, SymbolBinding::Weak, 0);
}

/// A reference to a definition that is protected in its own image binds to that
/// definition.
pub proof fn protected_definitions_bind_to_themselves(
    scopes: ScopeSet,
    graph: DependencyGraph,
    symbols: Seq<&SymbolTable>,
    requester: ImageId,
    name: Seq<u8>,
    index: int,
)
    requires
        graph.wf(),
        scopes.frozen_from(graph, symbols),
        requester.0 < graph.nodes@.len(),
        requester.0 < symbols.len(),
        lookup_from(symbols[requester.0 as int].entries@, name, 0) == Some(index),
        protected_entry(symbols[requester.0 as int].entries@[index]),
    ensures
        scopes.resolve_spec(symbols, requester, name) == Some(
            ResolvedSymbol::entry_spec(requester, symbols[requester.0 as int].entries@[index]),
        ),
{
    let entries = symbols[requester.0 as int].entries@;
    lemma_lookup_from(entries, name, 0);
    lemma_protected_index(entries, entries.len() as int, index);
    assert(scopes.per_image@[requester.0 as int].protected@ == protected_indices(
        entries,
        entries.len() as int,
    ));
}

proof fn lemma_protected_index(entries: Seq<SymbolEntry>, k: int, index: int)
    requires
        0 <= index < k <= entries.len(),
        protected_entry(entries[index]),
    ensures
        protected_indices(entries, k).contains(index as usize),
    decreases k,
{
    let all = protected_indices(entries, k);
    if index == k - 1 {
        assert(all[all.len() - 1] == index as usize);
    } else {
        lemma_protected_index(entries, k - 1, index);
        let before = protected_indices(entries, k - 1);
        let i = choose|i: int| 0 <= i < before.len() && before[i] == index as usize;
        assert(all[i] == index as usize);
    }
}

/// Whether entry `j` of a symbol table is what the table gives other images for a
/// name: its first definition, which is not local and not hidden.
pub open spec fn exports(entries: Seq<SymbolEntry>, name: Seq<u8>, j: int) -> bool {
    &&& 0 <= j < entries.len()
    &&& entries[j].definition is Defined
    &&& entries[j].name@ == name
    &&& entries[j].binding is Global || entries[j].binding is Weak
    &&& entries[j].visibility is Default || entries[j].visibility is Protected
    &&& forall|i: int|
        0 <= i < j ==> !((#[trigger] entries[i]).definition is Defined && entries[i].name@ == name)
}

proof fn lemma_lookup_is_first(entries: Seq<SymbolEntry>, name: Seq<u8>, from: int)
    requires
        0 <= from <= entries.len(),
    ensures
        match lookup_from(entries, name, from) {
            Some(j) => from <= j < entries.len() && entries[j].definition is Defined
                && entries[j].name@ == name && forall|i: int|
                from <= i < j ==> !((#[trigger] entries[i]).definition is Defined
                    && entries[i].name@ == name),
            None => forall|i: int|
                from <= i < entries.len() ==> !((#[trigger] entries[i]).definition is Defined
                    && entries[i].name@ == name),
        },
    decreases entries.len() - from,
{
    if from < entries.len() {
        lemma_lookup_is_first(entries, name, from + 1);
    }
}

proof fn lemma_offered(symbols: Seq<&SymbolTable>, image: ImageId, name: Seq<u8>)
    requires
        image.0 < symbols.len(),
    ensures
        match offered(symbols, image, name) {
            Some(symbol) => exists|j: int| #[trigger]
                exports(symbols[image.0 as int].entries@, name, j) && symbol
                    == ResolvedSymbol::entry_spec(
                    image,
                    symbols[image.0 as int].entries@[j],
                ),
            None => forall|j: int| !#[trigger] exports(symbols[image.0 as int].entries@, name, j),
        },
        forall|j: int| #[trigger]
            exports(symbols[image.0 as int].entries@, name, j) ==> offered(symbols, image, name)
                == Some(
                ResolvedSymbol::entry_spec(image, symbols[image.0 as int].entries@[j]),
            ),
{
    let entries = symbols[image.0 as int].entries@;
    lemma_lookup_is_first(entries, name, 0);
    match lookup_from(entries, name, 0) {
        Some(k) => {
            if exportable(entries[k]) {
                assert(exports(entries, name, k));
            }
            assert forall|j: int| #[trigger] exports(entries, name, j) implies j == k by {
                if j < k {
                    assert(entries[j].definition is Defined);
                } else if k < j {
                    assert(entries[k].definition is Defined);
                }
            }
        },
        None => {
            assert forall|j: int| !#[trigger] exports(entries, name, j) by {
                if exports(entries, name, j) {
                    assert(entries[j].definition is Defined);
                }
            }
        },
    }
}

proof fn lemma_protected_indices(entries: Seq<SymbolEntry>, k: int)
    requires
        0 <= k <= entries.len() <= usize::MAX,
    ensures
        forall|t: int|
            0 <= t < protected_indices(entries, k).len() ==> (#[trigger] protected_indices(
                entries,
                k,
            )[t]) < k && {
                let entry = entries[protected_indices(entries, k)[t] as int];
                &&& entry.definition is Defined
                &&& entry.visibility is Protected
                &&& entry.binding is Global || entry.binding is Weak
            },
    decreases k,
{
    if k > 0 {
        lemma_protected_indices(entries, k - 1);
    }
}

proof fn lemma_owned_order(nodes: Seq<DependencyNode>, k: int, system: bool)
    requires
        0 <= k <= nodes.len(),
        forall|n: int| 0 <= n < nodes.len() ==> (#[trigger] nodes[n]).id.0 == n,
    ensures
        forall|i: int|
            0 <= i < owned_images(nodes, k, system).len() ==> (#[trigger] owned_images(
                nodes,
                k,
                system,
            )[i]).0 < k && (nodes[owned_images(nodes, k, system)[i].0 as int].ownership
                is SessionPrivate) == !system,
        forall|i: int, j: int|
            0 <= i < j < owned_images(nodes, k, system).len() ==> (#[trigger] owned_images(
                nodes,
                k,
                system,
            )[i]).0 < (#[trigger] owned_images(nodes, k, system)[j]).0,
        forall|m: int|
            0 <= m < k && ((#[trigger] nodes[m]).ownership is SessionPrivate) == !system
                ==> owned_images(nodes, k, system).contains(nodes[m].id),
    decreases k,
{
    if k > 0 {
        lemma_owned_order(nodes, k - 1, system);
        let before = owned_images(nodes, k - 1, system);
        let all = owned_images(nodes, k, system);
        if (nodes[k - 1].ownership is SessionPrivate) == !system {
            assert(all == before.push(nodes[k - 1].id));
            assert(all[before.len() as int] == nodes[k - 1].id);
            assert forall|m: int| 0 <= m < k && ((#[trigger] nodes[m]).ownership is SessionPrivate)
                == !system implies all.contains(nodes[m].id) by {
                if m < k - 1 {
                    let i = choose|i: int| 0 <= i < before.len() && before[i] == nodes[m].id;
                    assert(all[i] == nodes[m].id);
                }
            }
        }
    }
}

/// The application scope searches every image of the graph once: those of the session
/// before those of the system, and each of these in the order of discovery. The system
/// scope searches the images of the system alone, in the order of discovery.
pub proof fn scopes_are_in_discovery_order(
    scopes: ScopeSet,
    graph: DependencyGraph,
    symbols: Seq<&SymbolTable>,
)
    requires
        graph.wf(),
        scopes.frozen_from(graph, symbols),
    ensures
        forall|p: int|
            0 <= p < scopes.application.ordered_images@.len() ==> (
            #[trigger] scopes.application.ordered_images@[p]).0 < graph.nodes@.len(),
        forall|m: int|
            0 <= m < graph.nodes@.len() ==> scopes.application.ordered_images@.contains(
                (#[trigger] graph.nodes@[m]).id,
            ),
        forall|p: int, q: int|
            0 <= p < q < scopes.application.ordered_images@.len() ==> {
                let a = (#[trigger] scopes.application.ordered_images@[p]).0 as int;
                let b = (#[trigger] scopes.application.ordered_images@[q]).0 as int;
                if graph.nodes@[a].ownership is SessionPrivate {
                    !(graph.nodes@[b].ownership is SessionPrivate)
                        || graph.nodes@[a].discovery_index < graph.nodes@[b].discovery_index
                } else {
                    !(graph.nodes@[b].ownership is SessionPrivate)
                        && graph.nodes@[a].discovery_index < graph.nodes@[b].discovery_index
                }
            },
        forall|p: int|
            0 <= p < scopes.system.ordered_images@.len() ==> (
            #[trigger] scopes.system.ordered_images@[p]).0 < graph.nodes@.len() && !(
            graph.nodes@[scopes.system.ordered_images@[p].0 as int].ownership is SessionPrivate),
        forall|m: int|
            0 <= m < graph.nodes@.len() && !((#[trigger] graph.nodes@[m]).ownership
                is SessionPrivate) ==> scopes.system.ordered_images@.contains(graph.nodes@[m].id),
        forall|p: int, q: int|
            0 <= p < q < scopes.system.ordered_images@.len() ==> graph.nodes@[(
            #[trigger] scopes.system.ordered_images@[p]).0 as int].discovery_index
                < graph.nodes@[(#[trigger] scopes.system.ordered_images@[q]).0 as int].discovery_index,
{
    let nodes = graph.nodes@;
    let n = nodes.len() as int;
    lemma_owned_order(nodes, n, true);
    lemma_owned_order(nodes, n, false);
    let private = owned_images(nodes, n, false);
    let system = owned_images(nodes, n, true);
    let order = scopes.application.ordered_images@;
    assert(order == private + system);
    assert forall|m: int| 0 <= m < n implies order.contains((#[trigger] nodes[m]).id) by {
        if nodes[m].ownership is SessionPrivate {
            let i = choose|i: int| 0 <= i < private.len() && private[i] == nodes[m].id;
            assert(order[i] == nodes[m].id);
        } else {
            let i = choose|i: int| 0 <= i < system.len() && system[i] == nodes[m].id;
            assert(order[private.len() + i] == nodes[m].id);
        }
    }
}

proof fn lemma_own_definition(
    scopes: ScopeSet,
    graph: DependencyGraph,
    symbols: Seq<&SymbolTable>,
    requester: ImageId,
    name: Seq<u8>,
)
    requires
        graph.wf(),
        scopes.frozen_from(graph, symbols),
        symbols.len() >= graph.nodes@.len(),
        requester.0 < graph.nodes@.len(),
    ensures
        ({
            let own = symbols[requester.0 as int].entries@;
            let found = scopes.resolve_spec(symbols, requester, name);
            if exists|j: int| #[trigger] exports(own, name, j) && own[j].visibility is Protected {
                exists|j: int| #[trigger]
                    exports(own, name, j) && found == Some(
                        ResolvedSymbol::entry_spec(requester, own[j]),
                    )
            } else {
                found == search(scopes.searched_by(requester), symbols, name)
            }
        }),
{
    let own = symbols[requester.0 as int].entries@;
    let image = scopes.per_image@[requester.0 as int];
    assert(image.protected@ == protected_indices(own, own.len() as int));
    lemma_lookup_is_first(own, name, 0);
    assert(own.len() == symbols[requester.0 as int].entries.len());
    lemma_protected_indices(own, own.len() as int);
    if exists|j: int| #[trigger] exports(own, name, j) && own[j].visibility is Protected {
        let j = choose|j: int| #[trigger] exports(own, name, j) && own[j].visibility is Protected;
        assert(own[j].definition is Defined);
        let k = lookup_from(own, name, 0)->0;
        assert(j == k) by {
            if k < j {
                assert(own[k].definition is Defined);
            }
        }
        lemma_protected_index(own, own.len() as int, k);
        assert(scopes.self_first(requester, k));
    } else if lookup_from(own, name, 0) is Some && scopes.self_first(
        requester,
        lookup_from(own, name, 0)->0,
    ) {
        let k = lookup_from(own, name, 0)->0;
        let t = choose|t: int| 0 <= t < image.protected@.len() && image.protected@[t] == k as usize;
        assert(own[image.protected@[t] as int].visibility is Protected);
        assert(exports(own, name, k));
    }
}

/// A reference binds to its own image where that has a protected definition of the
/// name. Any other reference binds to one of the images that it may see: all of them,
/// or those of the system alone where the reference is one of the system. Among what
/// these export a strong definition comes before a weak one, then an image of the
/// session before one of the system, and then the image that was discovered first.
/// Only where none exports the name does it bind to nothing.
pub proof fn references_bind_to_the_first_definition(
    scopes: ScopeSet,
    graph: DependencyGraph,
    symbols: Seq<&SymbolTable>,
    requester: ImageId,
    name: Seq<u8>,
)
    requires
        graph.wf(),
        scopes.frozen_from(graph, symbols),
        symbols.len() >= graph.nodes@.len(),
        requester.0 < graph.nodes@.len(),
    ensures
        ({
            let nodes = graph.nodes@;
            let own = symbols[requester.0 as int].entries@;
            let private = nodes[requester.0 as int].ownership is SessionPrivate;
            let found = scopes.resolve_spec(symbols, requester, name);
            if exists|j: int| #[trigger] exports(own, name, j) && own[j].visibility is Protected {
                &&& found matches Some(symbol)
                &&& symbol.owner == requester
                &&& exists|j: int| #[trigger]
                    exports(own, name, j) && symbol.address == own[j].value && symbol.size
                        == own[j].size && symbol.binding == own[j].binding
            } else {
                match found {
                    Some(symbol) => {
                        let owner = symbol.owner.0 as int;
                        &&& owner < nodes.len()
                        &&& private || !(nodes[owner].ownership is SessionPrivate)
                        &&& exists|j: int| #[trigger]
                            exports(symbols[owner].entries@, name, j) && symbol.address
                                == symbols[owner].entries@[j].value && symbol.size
                                == symbols[owner].entries@[j].size && symbol.binding
                                == symbols[owner].entries@[j].binding
                        &&& forall|m: int, i: int|
                            0 <= m < nodes.len() && m != owner && (private || !(nodes[m].ownership
                                is SessionPrivate)) && #[trigger] exports(
                                symbols[m].entries@,
                                name,
                                i,
                            ) ==> {
                                ||| symbol.binding is Global && symbols[m].entries@[i].binding
                                    is Weak
                                ||| symbol.binding == symbols[m].entries@[i].binding && (
                                nodes[owner].ownership is SessionPrivate) && !(nodes[m].ownership
                                    is SessionPrivate)
                                ||| symbol.binding == symbols[m].entries@[i].binding && (
                                nodes[owner].ownership is SessionPrivate) == (nodes[m].ownership
                                    is SessionPrivate) && nodes[owner].discovery_index
                                    < nodes[m].discovery_index
                            }
                    },
                    None => forall|m: int, i: int|
                        0 <= m < nodes.len() && (private || !(nodes[m].ownership
                            is SessionPrivate)) ==> !#[trigger] exports(
                            symbols[m].entries@,
                            name,
                            i,
                        ),
                }
            }
        }),
{
    let nodes = graph.nodes@;
    let own = symbols[requester.0 as int].entries@;
    lemma_own_definition(scopes, graph, symbols, requester, name);
    if !(exists|j: int| #[trigger] exports(own, name, j) && own[j].visibility is Protected) {
        let private = nodes[requester.0 as int].ownership is SessionPrivate;
        let order = scopes.searched_by(requester);
        scopes_are_in_discovery_order(scopes, graph, symbols);
        assert(scopes.per_image@[requester.0 as int].ownership
            == nodes[requester.0 as int].ownership);
        let at = lemma_search_place(order, symbols, name);
        if at < order.len() {
            lemma_offered(symbols, order[at], name);
        }
        assert forall|m: int, i: int|
            0 <= m < nodes.len() && (private || !(nodes[m].ownership is SessionPrivate))
                && #[trigger] exports(symbols[m].entries@, name, i) implies order.contains(
            nodes[m].id,
        ) && nodes[m].id.0 == m && offered(symbols, nodes[m].id, name) == Some(
            ResolvedSymbol::entry_spec(nodes[m].id, symbols[m].entries@[i]),
        ) by {
            lemma_offered(symbols, nodes[m].id, name);
        }
    }
}

/// A resolved symbol is at the value of its entry. The mode bit of a function, which is
/// executed, is not part of where it lies; every other value is its place as it is.
pub proof fn symbols_lie_at_their_value(owner: ImageId, entry: SymbolEntry)
    ensures
        ({
            let symbol = ResolvedSymbol::entry_spec(owner, entry);
            &&& symbol.owner == owner
            &&& symbol.address == entry.value
            &&& symbol.size == entry.size
            &&& symbol.binding == entry.binding
            &&& entry.symbol_type is Func ==> symbol.canonical.0 == entry.value.0
                - entry.value.0 % 2 && symbol.region is Executable
            &&& !(entry.symbol_type is Func) ==> symbol.canonical == entry.value && !(
            symbol.region is Executable)
        }),
{
}

} // verus!
