//! The table of capabilities that a host exposes to scripts.
//!
//! A [`Registry`] is plain data, built once before any script runs. Each
//! [`Descriptor`] names one capability; the registry's mode and the
//! descriptor's own flags decide under which scopes a script can reach it.

use vstd::prelude::*;

verus! {

/// What a capability is.
#[derive(Debug, Clone, Copy, PartialEq, Eq, Structural)]
pub enum Kind {
    TypeAlias,
    Constant,
    Function,
    PropertyGetter,
    Operator,
}

/// How a registry lays its entries out.
#[derive(Debug, Clone, Copy, PartialEq, Eq, Structural)]
pub enum Mode {
    /// Top-level entries are reachable without a qualifier.
    MergeGlobal,
    /// Entries are reachable behind the registry's qualifier.
    Namespaced,
}

/// Why a descriptor was refused.
#[derive(Debug, Clone, Copy, PartialEq, Eq, Structural)]
pub enum ConfigError {
    /// An entry of the same name is reachable under a scope that the new
    /// one would share.
    Collision,
    /// The scripting runtime refused an operator: its token is a keyword
    /// or symbol of the language, or its precedence is zero.
    ReservedOperator,
}

/// One capability as the host declares it.
#[derive(Debug)]
pub struct Descriptor {
    /// The name, or for an operator the token, that scripts write.
    pub name: String,
    pub kind: Kind,
    /// The nested group that holds the capability, if any.
    pub group: Option<String>,
    /// The record type whose property a property getter reads.
    pub target: Option<String>,
    /// Whether the capability is meant for scripts at all.
    pub exported: bool,
    /// Whether a function or operator of a namespaced registry is reachable
    /// without qualifier as well.
    pub global: bool,
    /// Whether the build includes the capability's group.
    pub enabled: bool,
    /// The binding strength of an operator.
    pub precedence: u8,
}

pub struct DescriptorView {
    pub name: Seq<char>,
    pub kind: Kind,
    pub group: Option<Seq<char>>,
    pub target: Option<Seq<char>>,
    pub exported: bool,
    pub global: bool,
    pub enabled: bool,
    pub precedence: u8,
}

impl View for Descriptor {
    type V = DescriptorView;

    open spec fn view(&self) -> DescriptorView {
        DescriptorView {
            name: self.name@,
            kind: self.kind,
            group: match self.group {
                Some(g) => Some(g@),
                None => None,
            },
            target: match self.target {
                Some(t) => Some(t@),
                None => None,
            },
            exported: self.exported,
            global: self.global,
            enabled: self.enabled,
            precedence: self.precedence,
        }
    }
}

/// The form in which a script refers to a name.
#[derive(Debug)]
pub enum Scope {
    /// `name`
    Bare,
    /// `qualifier::name`
    Module(String),
    /// `qualifier::group::name`
    Group(String, String),
}

pub enum ScopeView {
    Bare,
    Module(Seq<char>),
    Group(Seq<char>, Seq<char>),
}

impl View for Scope {
    type V = ScopeView;

    open spec fn view(&self) -> ScopeView {
        match self {
            Scope::Bare => ScopeView::Bare,
            Scope::Module(q) => ScopeView::Module(q@),
            Scope::Group(q, g) => ScopeView::Group(q@, g@),
        }
    }
}

/// The scripting runtime. Nothing of its state is known here.
#[verifier::external_type_specification]
#[verifier::external_body]
pub struct ExEngine(rhai::Engine);

/// The operators that scripts of `engine` can write beyond the built-in
/// ones, each token with its precedence.
pub uninterp spec fn custom_operators(engine: rhai::Engine) -> Map<Seq<char>, u8>;

/// The keywords and symbols of the language that `engine` has been told
/// not to know.
pub uninterp spec fn disabled_symbols(engine: rhai::Engine) -> Set<Seq<char>>;

/// Whether `token` is one of the keywords or symbols that the language is
/// built with, such as an arithmetic operator.
pub uninterp spec fn standard_token(token: Seq<char>) -> bool;

/// Calls `rhai::Engine::register_custom_operator`.
///
/// Trusted: the runtime refuses an operator exactly where its precedence
/// is zero or its token is a keyword or symbol of the language that the
/// engine has not disabled. An accepted operator is entered under its
/// token with its precedence, replacing an earlier entry of that token; a
/// refused one changes nothing. The disabled symbols stay as they are.
#[verifier::external_body]
fn add_operator(engine: &mut rhai::Engine, token: &str, precedence: u8) -> (accepted: bool)
    ensures
        accepted == !(precedence == 0 || (standard_token(token@) && !disabled_symbols(
            *old(engine),
        ).contains(token@))),
        custom_operators(*final(engine)) == (if accepted {
            custom_operators(*old(engine)).insert(token@, precedence)
        } else {
            custom_operators(*old(engine))
        }),
        disabled_symbols(*final(engine)) == disabled_symbols(*old(engine)),
{
    engine.register_custom_operator(token, precedence).is_ok()
}

/// Whether `engine` refuses an operator of this token and precedence: a
/// precedence of zero binds nothing, and a keyword or symbol of the
/// language can be taken only where the engine has disabled it.
pub open spec fn refused(engine: rhai::Engine, token: Seq<char>, precedence: u8) -> bool {
    precedence == 0 || (standard_token(token) && !disabled_symbols(engine).contains(token))
}

/// `ops` after the operators among the first `upto` of `entries` have been
/// entered in order.
pub open spec fn with_operators(ops: Map<Seq<char>, u8>, entries: Seq<DescriptorView>, upto: int) -> Map<
    Seq<char>,
    u8,
>
    decreases upto,
{
    if upto <= 0 || upto > entries.len() {
        ops
    } else {
        let before = with_operators(ops, entries, upto - 1);
        let d = entries[upto - 1];
        if d.kind == Kind::Operator {
            before.insert(d.name, d.precedence)
        } else {
            before
        }
    }
}

/// A descriptor enters the table only if it is exported and its group is
/// part of the build.
pub open spec fn admitted(d: DescriptorView) -> bool {
    d.exported && d.enabled
}

/// Whether `d` is reachable without qualifier in a registry of mode `mode`.
pub open spec fn bare_reach(mode: Mode, d: DescriptorView) -> bool {
    match mode {
        Mode::MergeGlobal => d.group is None,
        Mode::Namespaced => d.global && (d.kind == Kind::Function || d.kind == Kind::Operator),
    }
}

/// Whether `d` is reachable behind its full qualifier. Under `MergeGlobal`
/// nothing is: top-level entries are bare, and nested groups are not
/// promoted.
pub open spec fn home_reach(mode: Mode, qualifier: Seq<char>, d: DescriptorView, scope: ScopeView) -> bool {
    mode == Mode::Namespaced && match scope {
        ScopeView::Bare => false,
        ScopeView::Module(q) => q == qualifier && d.group is None,
        ScopeView::Group(q, g) => q == qualifier && d.group == Some(g),
    }
}

/// Whether a script that writes `name` under `scope` reaches `d`. A
/// property getter answers to no name: it is reached through a value of
/// its record type only.
pub open spec fn reaches(
    mode: Mode,
    qualifier: Seq<char>,
    d: DescriptorView,
    scope: ScopeView,
    name: Seq<char>,
) -> bool {
    d.kind != Kind::PropertyGetter && d.name == name && (if scope is Bare {
        bare_reach(mode, d)
    } else {
        home_reach(mode, qualifier, d, scope)
    })
}

/// Whether a script that writes `value.name`, for a value of the record
/// type `target`, reaches `d`.
pub open spec fn reads_property(d: DescriptorView, target: Seq<char>, name: Seq<char>) -> bool {
    d.kind == Kind::PropertyGetter && d.target == Some(target) && d.name == name
}

/// Two property getters collide where they share record type and name.
/// Two other descriptors collide where they share a name and either a
/// group or the unqualified scope. A property getter and another
/// descriptor never collide.
pub open spec fn collide(mode: Mode, a: DescriptorView, b: DescriptorView) -> bool {
    a.name == b.name && (if a.kind == Kind::PropertyGetter || b.kind == Kind::PropertyGetter {
        a.kind == b.kind && a.target == b.target
    } else {
        a.group == b.group || (bare_reach(mode, a) && bare_reach(mode, b))
    })
}

pub struct RegistryView {
    pub qualifier: Seq<char>,
    pub mode: Mode,
    pub entries: Seq<DescriptorView>,
}

impl RegistryView {
    /// Whether a script that writes `name` under `scope` reaches the entry
    /// at `i`.
    pub open spec fn reaches_at(self, i: int, scope: ScopeView, name: Seq<char>) -> bool {
        0 <= i < self.entries.len() && reaches(self.mode, self.qualifier, self.entries[i], scope, name)
    }

    /// Whether a script that writes `name` under `scope` reaches anything.
    pub open spec fn resolvable(self, scope: ScopeView, name: Seq<char>) -> bool {
        exists|i: int| self.reaches_at(i, scope, name)
    }

    /// Whether `value.name`, for a value of the record type `target`,
    /// reaches the entry at `i`.
    pub open spec fn reads_at(self, i: int, target: Seq<char>, name: Seq<char>) -> bool {
        0 <= i < self.entries.len() && reads_property(self.entries[i], target, name)
    }

    /// Whether `value.name`, for a value of the record type `target`,
    /// reaches anything.
    pub open spec fn readable(self, target: Seq<char>, name: Seq<char>) -> bool {
        exists|i: int| self.reads_at(i, target, name)
    }

    /// Whether `engine` takes every operator of the table.
    pub open spec fn operators_fit(self, engine: rhai::Engine) -> bool {
        forall|k: int|
            0 <= k < self.entries.len() && (#[trigger] self.entries[k]).kind == Kind::Operator
                ==> !refused(engine, self.entries[k].name, self.entries[k].precedence)
    }

    /// Whether some entry collides with `d`.
    pub open spec fn collides_with(self, d: DescriptorView) -> bool {
        exists|i: int| 0 <= i < self.entries.len() && collide(self.mode, #[trigger] self.entries[i], d)
    }

    /// Every entry is admitted and no two collide.
    pub open spec fn wf(self) -> bool {
        &&& forall|i: int| 0 <= i < self.entries.len() ==> admitted(#[trigger] self.entries[i])
        &&& forall|i: int, j: int|
            0 <= i < j < self.entries.len() ==> !collide(self.mode, #[trigger] self.entries[i], #[trigger] self.entries[j])
    }

    /// The table after `d` has been offered to it, and whether `d` entered.
    /// A descriptor that is not admitted leaves no trace; one that collides
    /// is refused.
    pub open spec fn offer(self, d: DescriptorView) -> (RegistryView, Result<bool, ConfigError>) {
        if !admitted(d) {
            (self, Ok(false))
        } else if self.collides_with(d) {
            (self, Err(ConfigError::Collision))
        } else {
            (RegistryView { entries: self.entries.push(d), ..self }, Ok(true))
        }
    }
}

fn same_text(a: &String, b: &String) -> (r: bool)
    ensures
        r == (a@ == b@),
{
    a.eq(b)
}

fn same_group(a: &Option<String>, b: &Option<String>) -> (r: bool)
    ensures
        r == (match (a, b) {
            (Some(x), Some(y)) => x@ == y@,
            (None, None) => true,
            _ => false,
        }),
{
    match (a, b) {
        (Some(x), Some(y)) => same_text(x, y),
        (None, None) => true,
        _ => false,
    }
}

fn is_bare(mode: Mode, d: &Descriptor) -> (r: bool)
    ensures
        r == bare_reach(mode, d@),
{
    match mode {
        Mode::MergeGlobal => d.group.is_none(),
        Mode::Namespaced => d.global && (d.kind == Kind::Function || d.kind == Kind::Operator),
    }
}

fn is_collision(mode: Mode, a: &Descriptor, b: &Descriptor) -> (r: bool)
    ensures
        r == collide(mode, a@, b@),
{
    if !same_text(&a.name, &b.name) {
        false
    } else if a.kind == Kind::PropertyGetter || b.kind == Kind::PropertyGetter {
        a.kind == b.kind && same_group(&a.target, &b.target)
    } else {
        same_group(&a.group, &b.group) || (is_bare(mode, a) && is_bare(mode, b))
    }
}

/// The capabilities of one module, as scripts will see them.
pub struct Registry {
    qualifier: String,
    mode: Mode,
    entries: Vec<Descriptor>,
}

impl View for Registry {
    type V = RegistryView;

    closed spec fn view(&self) -> RegistryView {
        RegistryView {
            qualifier: self.qualifier@,
            mode: self.mode,
            entries: Seq::new(self.entries@.len(), |i: int| self.entries@[i]@),
        }
    }
}

impl Registry {
    /// An empty table. `qualifier` is the prefix of a namespaced table; a
    /// merged one keeps it without using it.
    pub fn new(qualifier: String, mode: Mode) -> (r: Registry)
        ensures
            r@.wf(),
            r@.qualifier == qualifier@,
            r@.mode == mode,
            r@.entries.len() == 0,
    {
        Registry { qualifier, mode, entries: Vec::new() }
    }

    /// The table's mode.
    pub fn mode(&self) -> (m: Mode)
        ensures
            m == self@.mode,
    {
        self.mode
    }

    /// The number of entries.
    pub fn len(&self) -> (n: usize)
        ensures
            n == self@.entries.len(),
    {
        self.entries.len()
    }

    /// The entry at `i`, if there is one.
    pub fn get(&self, i: usize) -> (d: Option<&Descriptor>)
        ensures
            d is Some <==> i < self@.entries.len(),
            d matches Some(e) ==> e@ == self@.entries[i as int],
    {
        if i < self.entries.len() {
            Some(&self.entries[i])
        } else {
            None
        }
    }

    /// Offers `d` to the table: `Ok(true)` where it entered, `Ok(false)`
    /// where it is not exported or its group is not part of the build, an
    /// error where it collides with an entry. Only the first changes the
    /// table.
    pub fn register(&mut self, d: Descriptor) -> (r: Result<bool, ConfigError>)
        requires
            old(self)@.wf(),
        ensures
            final(self)@.wf(),
            (final(self)@, r) == old(self)@.offer(d@),
    {
        if !(d.exported && d.enabled) {
            return Ok(false);
        }
        let n = self.entries.len();
        let mut i: usize = 0;
        while i < n
            invariant
                0 <= i <= n,
                n == self.entries.len(),
                self@ == old(self)@,
                self@.wf(),
                admitted(d@),
                forall|j: int| 0 <= j < i ==> !collide(self@.mode, #[trigger] self@.entries[j], d@),
            decreases n - i,
        {
            if is_collision(self.mode, &self.entries[i], &d) {
                assert(collide(self@.mode, self@.entries[i as int], d@));
                return Err(ConfigError::Collision);
            }
            i += 1;
        }
        let ghost before = self@;
        self.entries.push(d);
        assert(self@.entries =~= before.entries.push(d@));
        assert(self@ == (RegistryView { entries: before.entries.push(d@), ..before }));
        Ok(true)
    }

    /// Makes the operators of the table known to `engine`, token and
    /// precedence as declared, in the order of the table, and stops at the
    /// first that the runtime refuses.
    ///
    /// It succeeds exactly where the runtime refuses none of them, and then
    /// every operator of the table has been entered. Otherwise the error
    /// is `ReservedOperator`, and the operators before the first refused
    /// one have been entered and no other.
    pub fn install_operators(&self, engine: &mut rhai::Engine) -> (r: Result<(), ConfigError>)
        ensures
            r is Ok <==> self@.operators_fit(*old(engine)),
            r is Ok ==> custom_operators(*final(engine)) == with_operators(
                custom_operators(*old(engine)),
                self@.entries,
                self@.entries.len() as int,
            ),
            r matches Err(e) ==> e == ConfigError::ReservedOperator && exists|k: int|
                0 <= k < self@.entries.len() && (#[trigger] self@.entries[k]).kind == Kind::Operator
                    && refused(*old(engine), self@.entries[k].name, self@.entries[k].precedence)
                    && (forall|j: int|
                    0 <= j < k && (#[trigger] self@.entries[j]).kind == Kind::Operator ==> !refused(
                        *old(engine),
                        self@.entries[j].name,
                        self@.entries[j].precedence,
                    )) && custom_operators(*final(engine)) == with_operators(
                    custom_operators(*old(engine)),
                    self@.entries,
                    k,
                ),
            disabled_symbols(*final(engine)) == disabled_symbols(*old(engine)),
    {
        let n = self.entries.len();
        let mut i: usize = 0;
        while i < n
            invariant
                0 <= i <= n,
                n == self.entries.len(),
                n == self@.entries.len(),
                forall|j: int|
                    0 <= j < i && (#[trigger] self@.entries[j]).kind == Kind::Operator ==> !refused(
                        *old(engine),
                        self@.entries[j].name,
                        self@.entries[j].precedence,
                    ),
                custom_operators(*engine) == with_operators(
                    custom_operators(*old(engine)),
                    self@.entries,
                    i as int,
                ),
                disabled_symbols(*engine) == disabled_symbols(*old(engine)),
            decreases n - i,
        {
            let d = &self.entries[i];
            assert(d@ == self@.entries[i as int]);
            if d.kind == Kind::Operator {
                let accepted = add_operator(engine, d.name.as_str(), d.precedence);
                if !accepted {
                    assert(refused(*old(engine), self@.entries[i as int].name, self@.entries[i as int].precedence));
                    return Err(ConfigError::ReservedOperator);
                }
            }
            i += 1;
        }
        Ok(())
    }

    /// The prefix behind which a namespaced table is reached.
    pub fn qualifier(&self) -> (q: &String)
        ensures
            q@ == self@.qualifier,
    {
        &self.qualifier
    }

    /// Finds the entry that a script reaches by writing `name` under
    /// `scope`. `None` is the answer for every name that nothing answers
    /// to, whatever the reason.
    pub fn resolve(&self, scope: &Scope, name: &String) -> (found: Option<usize>)
        ensures
            found is Some <==> self@.resolvable(scope@, name@),
            found matches Some(i) ==> self@.reaches_at(i as int, scope@, name@),
    {
        let n = self.entries.len();
        let mut i: usize = 0;
        while i < n
            invariant
                0 <= i <= n,
                n == self.entries.len(),
                forall|j: int| 0 <= j < i ==> !self@.reaches_at(j, scope@, name@),
            decreases n - i,
        {
            let d = &self.entries[i];
            assert(d@ == self@.entries[i as int]);
            if d.kind != Kind::PropertyGetter && same_text(&d.name, name) {
                let hit = match scope {
                    Scope::Bare => is_bare(self.mode, d),
                    Scope::Module(q) => self.mode == Mode::Namespaced && same_text(q, &self.qualifier)
                        && d.group.is_none(),
                    Scope::Group(q, g) => self.mode == Mode::Namespaced && same_text(q, &self.qualifier)
                        && match &d.group {
                        Some(h) => same_text(h, g),
                        None => false,
                    },
                };
                if hit {
                    assert(self@.reaches_at(i as int, scope@, name@));
                    return Some(i);
                }
            }
            i += 1;
        }
        None
    }

    /// Finds the property getter behind `value.name` for a value of the
    /// record type `target`. Nothing but a getter declared for that type
    /// and name answers.
    pub fn resolve_property(&self, target: &String, name: &String) -> (found: Option<usize>)
        ensures
            found is Some <==> self@.readable(target@, name@),
            found matches Some(i) ==> self@.reads_at(i as int, target@, name@),
    {
        let n = self.entries.len();
        let mut i: usize = 0;
        while i < n
            invariant
                0 <= i <= n,
                n == self.entries.len(),
                forall|j: int| 0 <= j < i ==> !self@.reads_at(j, target@, name@),
            decreases n - i,
        {
            let d = &self.entries[i];
            assert(d@ == self@.entries[i as int]);
            if d.kind == Kind::PropertyGetter && same_text(&d.name, name) {
                let hit = match &d.target {
                    Some(t) => same_text(t, target),
                    None => false,
                };
                if hit {
                    assert(self@.reads_at(i as int, target@, name@));
                    return Some(i);
                }
            }
            i += 1;
        }
        None
    }
}


/// In a namespaced table a name whose entries lack the global flag is
/// reached in qualified form only: written bare it resolves to nothing,
/// which is what a name that no entry bears resolves to under every scope.
pub proof fn lemma_namespaced_needs_qualifier(reg: RegistryView, name: Seq<char>)
    requires
        reg.mode == Mode::Namespaced,
        forall|i: int|
            0 <= i < reg.entries.len() && (#[trigger] reg.entries[i]).name == name ==> !reg.entries[i].global,
    ensures
        !reg.resolvable(ScopeView::Bare, name),
{
    assert forall|i: int| !reg.reaches_at(i, ScopeView::Bare, name) by {
        if 0 <= i < reg.entries.len() && reg.entries[i].name == name {
            assert(!reg.entries[i].global);
        }
    }
}

/// A name that no entry bears resolves to nothing under every scope.
pub proof fn lemma_unknown_name_unresolvable(reg: RegistryView, scope: ScopeView, name: Seq<char>)
    requires
        forall|i: int| 0 <= i < reg.entries.len() ==> (#[trigger] reg.entries[i]).name != name,
    ensures
        !reg.resolvable(scope, name),
{
    assert forall|i: int| !reg.reaches_at(i, scope, name) by {
        if 0 <= i < reg.entries.len() {
            assert(reg.entries[i].name != name);
        }
    }
}

/// A descriptor whose group is not part of the build, or that is not
/// exported, leaves no trace: the table after the offer is the table
/// before it, so every name resolves as if the descriptor had never been
/// written.
pub proof fn lemma_disabled_leaves_no_trace(reg: RegistryView, d: DescriptorView)
    requires
        !d.enabled || !d.exported,
    ensures
        reg.offer(d).0 == reg,
        reg.offer(d).1 == Ok::<bool, ConfigError>(false),
        forall|scope: ScopeView, name: Seq<char>|
            reg.offer(d).0.resolvable(scope, name) == reg.resolvable(scope, name),
{
}

/// The members of a nested group of a merged table are reachable under no
/// scope: merging the top level does not promote them.
pub proof fn lemma_merged_groups_inert(qualifier: Seq<char>, d: DescriptorView, scope: ScopeView, name: Seq<char>)
    requires
        d.group is Some,
    ensures
        !reaches(Mode::MergeGlobal, qualifier, d, scope, name),
{
}

/// In a well-formed table a scope and a name lead to at most one entry.
pub proof fn lemma_resolution_unique(reg: RegistryView, scope: ScopeView, name: Seq<char>, i: int, j: int)
    requires
        reg.wf(),
        reg.reaches_at(i, scope, name),
        reg.reaches_at(j, scope, name),
    ensures
        i == j,
{
    if i < j {
        assert(collide(reg.mode, reg.entries[i], reg.entries[j]));
    } else if j < i {
        assert(collide(reg.mode, reg.entries[j], reg.entries[i]));
    }
}

/// Offering a descriptor keeps the table well-formed. A descriptor that
/// entered is reachable: a property getter through its record type,
/// another behind its qualifier in a namespaced table and bare, if it is a
/// top-level one, in a merged table.
pub proof fn lemma_offer_sound(reg: RegistryView, d: DescriptorView)
    requires
        reg.wf(),
    ensures
        reg.offer(d).0.wf(),
        reg.offer(d).1 == Ok::<bool, ConfigError>(true) ==> {
            let after = reg.offer(d).0;
            let scope = match d.group {
                Some(g) => ScopeView::Group(reg.qualifier, g),
                None => ScopeView::Module(reg.qualifier),
            };
            &&& d.kind != Kind::PropertyGetter && reg.mode == Mode::Namespaced ==> after.resolvable(
                scope,
                d.name,
            )
            &&& d.kind != Kind::PropertyGetter && reg.mode == Mode::MergeGlobal && d.group is None
                ==> after.resolvable(ScopeView::Bare, d.name)
            &&& d.kind == Kind::PropertyGetter && d.target is Some ==> after.readable(
                d.target->Some_0,
                d.name,
            )
        },
{
    let after = reg.offer(d).0;
    if reg.offer(d).1 == Ok::<bool, ConfigError>(true) {
        let n = reg.entries.len() as int;
        assert(after.entries[n] == d);
        assert forall|i: int, j: int| 0 <= i < j < after.entries.len() implies !collide(
            after.mode,
            #[trigger] after.entries[i],
            #[trigger] after.entries[j],
        ) by {
            if j < n {
                assert(after.entries[i] == reg.entries[i] && after.entries[j] == reg.entries[j]);
            } else {
                assert(after.entries[i] == reg.entries[i]);
                assert(!collide(reg.mode, reg.entries[i], d));
            }
        }
        assert forall|i: int| 0 <= i < after.entries.len() implies admitted(#[trigger] after.entries[i]) by {
            if i < n {
                assert(after.entries[i] == reg.entries[i]);
            }
        }
        let scope = match d.group {
            Some(g) => ScopeView::Group(reg.qualifier, g),
            None => ScopeView::Module(reg.qualifier),
        };
        if d.kind != Kind::PropertyGetter && reg.mode == Mode::Namespaced {
            assert(after.reaches_at(n, scope, d.name));
        }
        if d.kind != Kind::PropertyGetter && reg.mode == Mode::MergeGlobal && d.group is None {
            assert(after.reaches_at(n, ScopeView::Bare, d.name));
        }
        if d.kind == Kind::PropertyGetter && d.target is Some {
            assert(after.reads_at(n, d.target->Some_0, d.name));
        }
    }
}


/// The order of two offers decides nothing but which of two colliding
/// descriptors is refused: where neither is refused in one order, neither
/// is in the other, and every scope and name reaches something in the one
/// table exactly if it does in the other.
pub proof fn lemma_offer_order(
    reg: RegistryView,
    a: DescriptorView,
    b: DescriptorView,
    scope: ScopeView,
    name: Seq<char>,
)
    requires
        reg.offer(a).1 is Ok,
        reg.offer(a).0.offer(b).1 is Ok,
    ensures
        reg.offer(b).1 is Ok,
        reg.offer(b).0.offer(a).1 is Ok,
        reg.offer(a).0.offer(b).0.resolvable(scope, name) == reg.offer(b).0.offer(a).0.resolvable(
            scope,
            name,
        ),
{
    let ra = reg.offer(a).0;
    let rb = reg.offer(b).0;
    let rab = ra.offer(b).0;
    let rba = rb.offer(a).0;
    let n = reg.entries.len() as int;
    if admitted(a) && admitted(b) {
        assert(ra.entries == reg.entries.push(a));
        assert(!ra.collides_with(b));
        assert forall|i: int| 0 <= i < n implies !collide(reg.mode, #[trigger] reg.entries[i], b) by {
            assert(ra.entries[i] == reg.entries[i]);
        }
        assert(ra.entries[n] == a);
        assert(!collide(reg.mode, a, b));
        assert(rb.entries == reg.entries.push(b));
        assert forall|i: int| 0 <= i < rb.entries.len() implies !collide(
            rb.mode,
            #[trigger] rb.entries[i],
            a,
        ) by {
            if i < n {
                assert(rb.entries[i] == reg.entries[i]);
            }
        }
        assert(rab.entries == reg.entries.push(a).push(b));
        assert(rba.entries == reg.entries.push(b).push(a));
        if rab.resolvable(scope, name) {
            let i = choose|i: int| rab.reaches_at(i, scope, name);
            let j = if i == n { n + 1 } else if i == n + 1 { n } else { i };
            assert(rba.entries[j] == rab.entries[i]);
            assert(rba.reaches_at(j, scope, name));
        }
        if rba.resolvable(scope, name) {
            let i = choose|i: int| rba.reaches_at(i, scope, name);
            let j = if i == n { n + 1 } else if i == n + 1 { n } else { i };
            assert(rab.entries[j] == rba.entries[i]);
            assert(rab.reaches_at(j, scope, name));
        }
    } else if admitted(a) {
        assert(rb == reg && rab == ra && rba == ra);
    } else if admitted(b) {
        assert(ra == reg && rab == rb && rba == rb);
    }
}


/// A property is read through a declared getter or not at all: where no
/// getter of the table is declared for the record type and the name,
/// nothing answers, whatever else the table holds under that name.
pub proof fn lemma_property_needs_getter(reg: RegistryView, target: Seq<char>, name: Seq<char>)
    requires
        forall|i: int|
            0 <= i < reg.entries.len() && (#[trigger] reg.entries[i]).kind == Kind::PropertyGetter
                ==> reg.entries[i].target != Some(target) || reg.entries[i].name != name,
    ensures
        !reg.readable(target, name),
{
    assert forall|i: int| !reg.reads_at(i, target, name) by {
        if 0 <= i < reg.entries.len() && reg.entries[i].kind == Kind::PropertyGetter {
            assert(reg.entries[i].target != Some(target) || reg.entries[i].name != name);
        }
    }
}

/// In a well-formed table a record type and a name lead to at most one
/// getter.
pub proof fn lemma_property_unique(reg: RegistryView, target: Seq<char>, name: Seq<char>, i: int, j: int)
    requires
        reg.wf(),
        reg.reads_at(i, target, name),
        reg.reads_at(j, target, name),
    ensures
        i == j,
{
    if i < j {
        assert(collide(reg.mode, reg.entries[i], reg.entries[j]));
    } else if j < i {
        assert(collide(reg.mode, reg.entries[j], reg.entries[i]));
    }
}


/// A table does not fit an engine where one of its operators has a
/// precedence of zero, or a token that is a keyword or symbol of the
/// language and that the engine has not disabled; a table without
/// operators fits every engine.
pub proof fn lemma_reserved_operator_unfit(reg: RegistryView, engine: rhai::Engine, k: int)
    requires
        0 <= k < reg.entries.len(),
        reg.entries[k].kind == Kind::Operator,
        reg.entries[k].precedence == 0 || (standard_token(reg.entries[k].name) && !disabled_symbols(
            engine,
        ).contains(reg.entries[k].name)),
    ensures
        !reg.operators_fit(engine),
        (RegistryView { entries: Seq::empty(), ..reg }).operators_fit(engine),
{
    assert(refused(engine, reg.entries[k].name, reg.entries[k].precedence));
}

} // verus!
