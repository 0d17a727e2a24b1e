use vstd::prelude::*;

verus! {

/// The value a macro name is bound to: literal replacement text, or the
/// identifier of a builtin handler.
pub enum MacroValue {
    Text(Vec<u8>),
    Builtin(Vec<u8>),
}

/// Mathematical model of a `MacroValue`.
pub enum ValueModel {
    Text(Seq<u8>),
    Builtin(Seq<u8>),
}

impl View for MacroValue {
    type V = ValueModel;

    open spec fn view(&self) -> ValueModel {
        match self {
            MacroValue::Text(t) => ValueModel::Text(t@),
            MacroValue::Builtin(b) => ValueModel::Builtin(b@),
        }
    }
}

/// One table entry: a name bound to a value.
pub struct Binding {
    pub name: Vec<u8>,
    pub value: MacroValue,
}

/// Mathematical model of a `Binding`.
pub struct BindingModel {
    pub name: Seq<u8>,
    pub value: ValueModel,
}

impl View for Binding {
    type V = BindingModel;

    open spec fn view(&self) -> BindingModel {
        BindingModel { name: self.name@, value: self.value@ }
    }
}

/// The macro table: an ordered sequence of bindings, insertion order
/// meaningful. Lookup returns the most recent binding for a name, so a later
/// binding shadows earlier ones without destroying them.
pub struct MacroTable {
    pub entries: Vec<Binding>,
}

impl View for MacroTable {
    type V = Seq<BindingModel>;

    open spec fn view(&self) -> Seq<BindingModel> {
        self.entries@.map(|i: int, b: Binding| b@)
    }
}

/// The most recent binding for `name`, scanning the table from its end.
pub open spec fn lookup_model(t: Seq<BindingModel>, name: Seq<u8>) -> Option<ValueModel>
    decreases t.len(),
{
    if t.len() == 0 {
        None
    } else if t.last().name == name {
        Some(t.last().value)
    } else {
        lookup_model(t.drop_last(), name)
    }
}

/// The table with every binding for `name` removed, other bindings kept in
/// order: the effect of `undefine`.
pub open spec fn undefine_model(t: Seq<BindingModel>, name: Seq<u8>) -> Seq<BindingModel>
    decreases t.len(),
{
    if t.len() == 0 {
        Seq::empty()
    } else {
        let rest = undefine_model(t.drop_last(), name);
        if t.last().name == name {
            rest
        } else {
            rest.push(t.last())
        }
    }
}

/// The table with only the most recent binding for `name` removed, earlier
/// ones re-exposed: the effect of `popdef`. Unchanged when `name` is unbound.
pub open spec fn popdef_model(t: Seq<BindingModel>, name: Seq<u8>) -> Seq<BindingModel>
    decreases t.len(),
{
    if t.len() == 0 {
        t
    } else if t.last().name == name {
        t.drop_last()
    } else {
        popdef_model(t.drop_last(), name).push(t.last())
    }
}

/// True when the two byte vectors hold the same bytes.
pub fn bytes_eq(a: &Vec<u8>, b: &Vec<u8>) -> (r: bool)
    ensures
        r <==> a@ == b@,
{
    if a.len() != b.len() {
        proof {
            assert(a@.len() != b@.len());
        }
        return false;
    }
    let n = a.len();
    let mut i: usize = 0;
    while i < n
        invariant
            n == a@.len() == b@.len(),
            0 <= i <= n,
            forall|k: int| 0 <= k < i ==> a@[k] == b@[k],
        decreases n - i,
    {
        if a[i] != b[i] {
            return false;
        }
        i += 1;
    }
    proof {
        assert(a@ =~= b@);
    }
    true
}

impl MacroTable {
    /// A table with no bindings.
    pub fn new() -> (t: MacroTable)
        ensures
            t@ == Seq::<BindingModel>::empty(),
    {
        let t = MacroTable { entries: Vec::new() };
        proof {
            assert(t@ =~= Seq::<BindingModel>::empty());
        }
        t
    }

    /// Appends a binding for `name`, shadowing every earlier one.
    pub fn define(&mut self, name: Vec<u8>, value: MacroValue)
        ensures
            final(self)@ == old(self)@.push(BindingModel { name: name@, value: value@ }),
    {
        let ghost before = self@;
        let ghost b = BindingModel { name: name@, value: value@ };
        self.entries.push(Binding { name, value });
        proof {
            assert(self@ =~= before.push(b));
        }
    }

    /// Appends a binding for `name`; `popdef` later removes exactly this one.
    pub fn pushdef(&mut self, name: Vec<u8>, value: MacroValue)
        ensures
            final(self)@ == old(self)@.push(BindingModel { name: name@, value: value@ }),
    {
        self.define(name, value);
    }

    /// Removes every binding for `name`; a no-op when none exists.
    pub fn undefine(&mut self, name: &Vec<u8>)
        ensures
            final(self)@ == undefine_model(old(self)@, name@),
    {
        let ghost before = self@;
        let n = self.entries.len();
        let mut kept: Vec<Binding> = Vec::new();
        let mut i: usize = 0;
        while i < n
            invariant
                n == self.entries@.len(),
                self@ == before,
                0 <= i <= n,
                kept@.map(|k: int, b: Binding| b@) == undefine_model(
                    before.take(i as int),
                    name@,
                ),
            decreases n - i,
    {
            let ghost kept_before = kept@.map(|k: int, b: Binding| b@);
            proof {
                assert(before.take(i + 1).drop_last() =~= before.take(i as int));
                assert(before.take(i + 1).last() == before[i as int]);
                assert(before[i as int] == self.entries@[i as int]@);
            }
            if bytes_eq(&self.entries[i].name, name) {
                proof {
                    assert(kept@.map(|k: int, b: Binding| b@) =~= undefine_model(
                        before.take(i + 1),
                        name@,
                    ));
                }
            } else {
                let b = Binding {
                    name: clone_bytes(&self.entries[i].name),
                    value: clone_value(&self.entries[i].value),
                };
                kept.push(b);
                proof {
                    assert(kept@.map(|k: int, b: Binding| b@) =~= kept_before.push(
                        before[i as int],
                    ));
                    assert(kept@.map(|k: int, b: Binding| b@) =~= undefine_model(
                        before.take(i + 1),
                        name@,
                    ));
                }
            }
            i += 1;
        }
        proof {
            assert(before.take(n as int) =~= before);
        }
        self.entries = kept;
    }

    /// The index of the most recent binding for `name`, or `None` when it
    /// is unbound.
    pub fn rfind(&self, name: &Vec<u8>) -> (r: Option<usize>)
        ensures
            match r {
                Some(j) => j < self@.len() && self@[j as int].name == name@ && forall|k: int|
                    j < k < self@.len() ==> self@[k].name != name@,
                None => forall|k: int| 0 <= k < self@.len() ==> self@[k].name != name@,
            },
    {
        let n = self.entries.len();
        let mut i: usize = n;
        while i > 0
            invariant
                n == self.entries@.len(),
                0 <= i <= n,
                forall|k: int| i <= k < n ==> self@[k].name != name@,
            decreases i,
        {
            i -= 1;
            proof {
                assert(self@[i as int] == self.entries@[i as int]@);
            }
            if bytes_eq(&self.entries[i].name, name) {
                return Some(i);
            }
        }
        None
    }

    /// Removes only the most recent binding for `name`, re-exposing the prior
    /// one; a no-op when `name` is unbound.
    pub fn popdef(&mut self, name: &Vec<u8>)
        ensures
            final(self)@ == popdef_model(old(self)@, name@),
    {
        let ghost before = self@;
        match self.rfind(name) {
            Some(j) => {
                self.entries.remove(j);
                proof {
                    lemma_popdef_at(before, name@, j as int);
                    assert(self@ =~= before.remove(j as int));
                }
            },
            None => {
                proof {
                    lemma_popdef_absent(before, name@);
                }
            },
        }
    }

    /// The most recent binding for `name`, or `None` when it is unbound.
    pub fn lookup(&self, name: &Vec<u8>) -> (r: Option<&MacroValue>)
        ensures
            match r {
                Some(v) => lookup_model(self@, name@) == Some(v@),
                None => lookup_model(self@, name@) is None,
            },
    {
        match self.rfind(name) {
            Some(j) => {
                proof {
                    lemma_lookup_at(self@, name@, j as int);
                    assert(self@[j as int] == self.entries@[j as int]@);
                }
                Some(&self.entries[j].value)
            },
            None => {
                proof {
                    lemma_lookup_absent(self@, name@);
                }
                None
            },
        }
    }
}

/// When the entry at `j` is the most recent binding for `name`, `lookup`
/// returns its value.
proof fn lemma_lookup_at(t: Seq<BindingModel>, name: Seq<u8>, j: int)
    requires
        0 <= j < t.len(),
        t[j].name == name,
        forall|k: int| j < k < t.len() ==> t[k].name != name,
    ensures
        lookup_model(t, name) == Some(t[j].value),
    decreases t.len(),
{
    if j == t.len() - 1 {
    } else {
        lemma_lookup_at(t.drop_last(), name, j);
    }
}

/// When no entry binds `name`, `lookup` finds nothing.
proof fn lemma_lookup_absent(t: Seq<BindingModel>, name: Seq<u8>)
    requires
        forall|k: int| 0 <= k < t.len() ==> t[k].name != name,
    ensures
        lookup_model(t, name) is None,
    decreases t.len(),
{
    if t.len() > 0 {
        lemma_lookup_absent(t.drop_last(), name);
    }
}

/// A copy of a byte vector.
pub fn clone_bytes(v: &Vec<u8>) -> (r: Vec<u8>)
    ensures
        r@ == v@,
{
    let mut r: Vec<u8> = Vec::new();
    let n = v.len();
    let mut i: usize = 0;
    while i < n
        invariant
            n == v@.len(),
            0 <= i <= n,
            r@ == v@.subrange(0, i as int),
        decreases n - i,
    {
        r.push(v[i]);
        proof {
            assert(v@.subrange(0, i + 1) =~= v@.subrange(0, i as int).push(v@[i as int]));
        }
        i += 1;
    }
    proof {
        assert(v@.subrange(0, v@.len() as int) =~= v@);
    }
    r
}

/// A copy of a macro value.
pub fn clone_value(v: &MacroValue) -> (r: MacroValue)
    ensures
        r@ == v@,
{
    match v {
        MacroValue::Text(t) => MacroValue::Text(clone_bytes(t)),
        MacroValue::Builtin(b) => MacroValue::Builtin(clone_bytes(b)),
    }
}

/// After `popdef`, the table is the old one with exactly the entry at `j`,
/// the most recent binding for `name`, removed.
proof fn lemma_popdef_at(t: Seq<BindingModel>, name: Seq<u8>, j: int)
    requires
        0 <= j < t.len(),
        t[j].name == name,
        forall|k: int| j < k < t.len() ==> t[k].name != name,
    ensures
        popdef_model(t, name) == t.remove(j),
    decreases t.len(),
{
    if j == t.len() - 1 {
        assert(t.last().name == name);
        assert(t.drop_last() =~= t.remove(j));
    } else {
        assert(t.last().name != name);
        lemma_popdef_at(t.drop_last(), name, j);
        assert(popdef_model(t.drop_last(), name).push(t.last()) =~= t.remove(j));
    }
}

/// `popdef` on a name with no binding leaves the table unchanged.
proof fn lemma_popdef_absent(t: Seq<BindingModel>, name: Seq<u8>)
    requires
        forall|k: int| 0 <= k < t.len() ==> t[k].name != name,
    ensures
        popdef_model(t, name) == t,
    decreases t.len(),
{
    if t.len() > 0 {
        lemma_popdef_absent(t.drop_last(), name);
        assert(t.drop_last().push(t.last()) =~= t);
    }
}

/// Shadowing law: after a `define` or `pushdef` of `name`, `lookup` of `name`
/// returns exactly the value just bound.
pub proof fn lemma_lookup_after_define(t: Seq<BindingModel>, name: Seq<u8>, v: ValueModel)
    ensures
        lookup_model(t.push(BindingModel { name, value: v }), name) == Some(v),
{
    let t2 = t.push(BindingModel { name, value: v });
    assert(t2.last() == BindingModel { name, value: v });
}

/// Shadowing law: a `define` or `pushdef` of one name leaves `lookup` of
/// every other name unchanged.
pub proof fn lemma_lookup_other_define(t: Seq<BindingModel>, b: BindingModel, other: Seq<u8>)
    requires
        b.name != other,
    ensures
        lookup_model(t.push(b), other) == lookup_model(t, other),
{
    let t2 = t.push(b);
    assert(t2.drop_last() =~= t);
}

/// Shadowing law: after `undefine` of `name`, `lookup` of `name` finds
/// nothing, while `lookup` of every other name is unchanged.
pub proof fn lemma_lookup_after_undefine(t: Seq<BindingModel>, name: Seq<u8>, other: Seq<u8>)
    requires
        other != name,
    ensures
        lookup_model(undefine_model(t, name), name) is None,
        lookup_model(undefine_model(t, name), other) == lookup_model(t, other),
    decreases t.len(),
{
    if t.len() == 0 {
    } else {
        lemma_lookup_after_undefine(t.drop_last(), name, other);
        let rest = undefine_model(t.drop_last(), name);
        if t.last().name == name {
        } else {
            assert(rest.push(t.last()).drop_last() =~= rest);
        }
    }
}

/// Shadowing law: `popdef` undoes the most recent `pushdef` of the same name
/// exactly, restoring the previous table.
pub proof fn lemma_popdef_after_pushdef(t: Seq<BindingModel>, name: Seq<u8>, v: ValueModel)
    ensures
        popdef_model(t.push(BindingModel { name, value: v }), name) == t,
{
    let t2 = t.push(BindingModel { name, value: v });
    assert(t2.last().name == name);
    assert(t2.drop_last() =~= t);
}

} // verus!
