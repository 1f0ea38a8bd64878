//! The binding table: a conflict-free mapping from chords to actions, and the
//! builder that fills it from explicit bindings and templates.
use vstd::prelude::*;
use std::collections::HashMap;
use crate::action::{action_valid, indexed_action, Action, ActionError, ActionView, IndexedCommand};
use crate::chord::{parse_chord, parse_spec, Chord, KeyTable, ParseError, ParseErrorView};
use crate::template::{
    expand,
    expand_labels,
    expand_spec,
    pairs_view,
    labels_view,
    substitute,
    Template,
    TemplateError,
    TemplateErrorView,
};

verus! {

broadcast use vstd::std_specs::hash::group_hash_axioms;

#[derive(Clone, Debug, PartialEq, Eq)]
pub enum BuildError {
    Parse(ParseError),
    Template(TemplateError),
    /// An internal action whose parameter is not of the kind its command requires.
    Action(ActionError),
    /// `chord` was bound to `existing` and is declared again with `conflicting`.
    DuplicateBinding { chord: Chord, existing: Action, conflicting: Action },
}

pub enum BuildErrorView {
    Parse(ParseErrorView),
    Template(TemplateErrorView),
    Action(ActionError),
    DuplicateBinding { chord: Chord, existing: ActionView, conflicting: ActionView },
}

impl View for BuildError {
    type V = BuildErrorView;

    open spec fn view(&self) -> BuildErrorView {
        match self {
            BuildError::Parse(e) => BuildErrorView::Parse(e@),
            BuildError::Template(e) => BuildErrorView::Template(e@),
            BuildError::Action(e) => BuildErrorView::Action(*e),
            BuildError::DuplicateBinding { chord, existing, conflicting } =>
                BuildErrorView::DuplicateBinding {
                chord: *chord,
                existing: existing@,
                conflicting: conflicting@,
            },
        }
    }
}

pub type TableMap = Map<Chord, ActionView>;

/// The mapping that a list of bindings with distinct chords gives.
pub open spec fn table_of(pairs: Seq<(Chord, ActionView)>) -> TableMap
    decreases pairs.len(),
{
    if pairs.len() == 0 {
        Map::empty()
    } else {
        table_of(pairs.drop_last()).insert(pairs.last().0, pairs.last().1)
    }
}

pub open spec fn chords_unique(pairs: Seq<(Chord, ActionView)>) -> bool {
    forall|i: int, j: int|
        0 <= i < pairs.len() && 0 <= j < pairs.len() && i != j ==> pairs[i].0 != pairs[j].0
}

/// What a lookup of `c` in `m` gives.
pub open spec fn lookup_spec(m: TableMap, c: Chord) -> Option<ActionView> {
    if m.contains_key(c) {
        Some(m[c])
    } else {
        None
    }
}

/// Binding `c` to `a` in `m`: refused when the registry does not accept `a`,
/// or when `c` is already bound.
pub open spec fn insert_one(m: TableMap, c: Chord, a: ActionView) -> Result<TableMap, BuildErrorView> {
    if !action_valid(a) {
        Err(BuildErrorView::Action(ActionError::ParameterMismatch))
    } else if m.contains_key(c) {
        Err(BuildErrorView::DuplicateBinding { chord: c, existing: m[c], conflicting: a })
    } else {
        Ok(m.insert(c, a))
    }
}

/// Binding each pair in order; the first chord already bound is the error.
pub open spec fn insert_all(m: TableMap, pairs: Seq<(Chord, ActionView)>) -> Result<
    TableMap,
    BuildErrorView,
>
    decreases pairs.len(),
{
    if pairs.len() == 0 {
        Ok(m)
    } else {
        match insert_all(m, pairs.drop_last()) {
            Err(e) => Err(e),
            Ok(m2) => insert_one(m2, pairs.last().0, pairs.last().1),
        }
    }
}

/// Binding the chord spec `s` to `a` in `m`.
pub open spec fn bind_spec(names: Seq<Seq<char>>, m: TableMap, s: Seq<char>, a: ActionView) -> Result<
    TableMap,
    BuildErrorView,
> {
    match parse_spec(names, s) {
        Err(e) => Err(BuildErrorView::Parse(e)),
        Ok(c) => insert_one(m, c, a),
    }
}

/// Binding every expansion of a template in `m`.
pub open spec fn template_spec(
    names: Seq<Seq<char>>,
    m: TableMap,
    p: Seq<char>,
    labels: Seq<(Seq<char>, usize)>,
    c: crate::action::IndexedCommand,
) -> Result<TableMap, BuildErrorView> {
    match expand_spec(names, p, labels, c) {
        Err(e) => Err(BuildErrorView::Template(e)),
        Ok(pairs) => insert_all(m, pairs),
    }
}

/// Binding explicit declarations in order.
pub open spec fn bind_each(names: Seq<Seq<char>>, m: TableMap, decls: Seq<(Seq<char>, ActionView)>) -> Result<
    TableMap,
    BuildErrorView,
>
    decreases decls.len(),
{
    if decls.len() == 0 {
        Ok(m)
    } else {
        match bind_each(names, m, decls.drop_last()) {
            Err(e) => Err(e),
            Ok(m2) => bind_spec(names, m2, decls.last().0, decls.last().1),
        }
    }
}

/// The view of a template: its pattern, its labels and its command.
pub open spec fn template_view(t: Template) -> (Seq<char>, Seq<(Seq<char>, usize)>, crate::action::IndexedCommand) {
    (t.pattern@, labels_view(t.labels@), t.command)
}

/// Binding templates in order.
pub open spec fn template_each(
    names: Seq<Seq<char>>,
    m: TableMap,
    ts: Seq<(Seq<char>, Seq<(Seq<char>, usize)>, crate::action::IndexedCommand)>,
) -> Result<TableMap, BuildErrorView>
    decreases ts.len(),
{
    if ts.len() == 0 {
        Ok(m)
    } else {
        match template_each(names, m, ts.drop_last()) {
            Err(e) => Err(e),
            Ok(m2) => template_spec(names, m2, ts.last().0, ts.last().1, ts.last().2),
        }
    }
}

/// The table built from explicit declarations followed by templates.
pub open spec fn build_spec(
    names: Seq<Seq<char>>,
    decls: Seq<(Seq<char>, ActionView)>,
    ts: Seq<(Seq<char>, Seq<(Seq<char>, usize)>, crate::action::IndexedCommand)>,
) -> Result<TableMap, BuildErrorView> {
    match bind_each(names, Map::empty(), decls) {
        Err(e) => Err(e),
        Ok(m) => template_each(names, m, ts),
    }
}

pub open spec fn decls_view(v: Seq<(String, Action)>) -> Seq<(Seq<char>, ActionView)> {
    v.map_values(|d: (String, Action)| (d.0@, d.1@))
}

pub open spec fn templates_view(v: Seq<Template>) -> Seq<
    (Seq<char>, Seq<(Seq<char>, usize)>, crate::action::IndexedCommand),
> {
    v.map_values(|t: Template| template_view(t))
}

/// A mapping from chords to actions, each chord bound at most once. The
/// bindings are kept in insertion order, with an index from each chord's code
/// to its position for constant-time lookup.
pub struct BindingTable {
    entries: Vec<(Chord, Action)>,
    index: HashMap<u128, usize>,
}

/// A number that identifies a chord: its key's index, then its modifier mask.
pub open spec fn chord_code(c: Chord) -> u128 {
    (c.key.index as int * 256 + c.modifiers as int) as u128
}

fn code_of(c: &Chord) -> (r: u128)
    ensures
        r == chord_code(*c),
{
    (c.key.index as u128) * 256 + (c.modifiers as u128)
}

proof fn lemma_code_injective(a: Chord, b: Chord)
    ensures
        chord_code(a) == chord_code(b) ==> a == b,
{
    let ia = a.key.index as int;
    let ib = b.key.index as int;
    let ma = a.modifiers as int;
    let mb = b.modifiers as int;
    assert(0 <= ia * 256 + ma < 0x1_0000_0000_0000_0000_00) by (nonlinear_arith)
        requires
            0 <= ia <= usize::MAX,
            0 <= ma < 256,
    ;
    assert(0 <= ib * 256 + mb < 0x1_0000_0000_0000_0000_00) by (nonlinear_arith)
        requires
            0 <= ib <= usize::MAX,
            0 <= mb < 256,
    ;
    if chord_code(a) == chord_code(b) {
        assert(ia == ib && ma == mb) by (nonlinear_arith)
            requires
                ia * 256 + ma == ib * 256 + mb,
                0 <= ma < 256,
                0 <= mb < 256,
        ;
        assert(a.key == b.key);
    }
}

impl View for BindingTable {
    type V = TableMap;

    closed spec fn view(&self) -> TableMap {
        table_of(pairs_view(self.entries@))
    }
}

pub open spec fn table_view(r: Result<BindingTable, BuildError>) -> Result<TableMap, BuildErrorView> {
    match r {
        Ok(t) => Ok(t@),
        Err(e) => Err(e@),
    }
}

proof fn lemma_table_of(pairs: Seq<(Chord, ActionView)>)
    requires
        chords_unique(pairs),
    ensures
        table_of(pairs).dom().finite(),
        table_of(pairs).dom().len() == pairs.len(),
        forall|c: Chord|
            table_of(pairs).contains_key(c) <==> exists|i: int| 0 <= i < pairs.len() && pairs[i].0 == c,
        forall|i: int|
            0 <= i < pairs.len() ==> #[trigger] table_of(pairs)[pairs[i].0] == pairs[i].1,
    decreases pairs.len(),
{
    if pairs.len() > 0 {
        let p = pairs.drop_last();
        let n = pairs.len() - 1;
        assert(chords_unique(p));
        lemma_table_of(p);
        let last = pairs.last();
        assert(!table_of(p).contains_key(last.0)) by {
            if table_of(p).contains_key(last.0) {
                let i = choose|i: int| 0 <= i < p.len() && p[i].0 == last.0;
                assert(pairs[i].0 == pairs[n].0);
            }
        }
        assert forall|c: Chord|
            table_of(pairs).contains_key(c) <==> exists|i: int|
                0 <= i < pairs.len() && pairs[i].0 == c by {
            if table_of(p).contains_key(c) {
                let i = choose|i: int| 0 <= i < p.len() && p[i].0 == c;
                assert(pairs[i].0 == c);
            }
            if exists|i: int| 0 <= i < pairs.len() && pairs[i].0 == c {
                let i = choose|i: int| 0 <= i < pairs.len() && pairs[i].0 == c;
                if i < n {
                    assert(p[i].0 == c);
                }
            }
        }
        assert forall|i: int| 0 <= i < pairs.len() implies #[trigger] table_of(pairs)[pairs[i].0]
            == pairs[i].1 by {
            if i < n {
                assert(p[i] == pairs[i]);
                assert(pairs[i].0 != last.0);
                assert(table_of(p)[p[i].0] == p[i].1);
            }
        }
    }
}

impl BindingTable {
    /// The table's entries have distinct chords, and the index maps the code
    /// of each entry's chord, and nothing else, to the entry's position.
    pub closed spec fn wf(&self) -> bool {
        &&& chords_unique(pairs_view(self.entries@))
        &&& forall|i: int|
            0 <= i < self.entries@.len() ==> self.index@.contains_key(
                chord_code(#[trigger] self.entries@[i].0),
            ) && self.index@[chord_code(self.entries@[i].0)] == i
        &&& forall|k: u128|
            #[trigger] self.index@.contains_key(k) ==> self.index@[k] < self.entries@.len()
                && chord_code(self.entries@[self.index@[k] as int].0) == k
    }

    /// The bindings of the table, in the order they were inserted.
    pub closed spec fn bindings(&self) -> Seq<(Chord, ActionView)> {
        pairs_view(self.entries@)
    }

    /// The table maps exactly its bindings, whose chords are distinct.
    pub proof fn lemma_bindings(&self)
        requires
            self.wf(),
        ensures
            chords_unique(self.bindings()),
            self@ == table_of(self.bindings()),
            self@.dom().finite(),
            self@.dom().len() == self.bindings().len(),
            forall|c: Chord|
                self@.contains_key(c) <==> exists|i: int|
                    0 <= i < self.bindings().len() && self.bindings()[i].0 == c,
    {
        lemma_table_of(self.bindings());
    }

    /// An empty table.
    pub fn new() -> (r: BindingTable)
        ensures
            r.wf(),
            r@ == TableMap::empty(),
    {
        let r = BindingTable { entries: Vec::new(), index: HashMap::new() };
        assert(pairs_view(r.entries@) =~= Seq::<(Chord, ActionView)>::empty());
        r
    }

    /// The number of bound chords.
    pub fn len(&self) -> (r: usize)
        requires
            self.wf(),
        ensures
            r == self@.dom().len(),
            r == self.bindings().len(),
            self@.dom().finite(),
    {
        proof {
            lemma_table_of(pairs_view(self.entries@));
        }
        self.entries.len()
    }

    /// The binding at position `i`, for handing every binding to the runtime.
    pub fn entry(&self, i: usize) -> (r: &(Chord, Action))
        requires
            self.wf(),
            i < self@.dom().len(),
        ensures
            (r.0, r.1@) == self.bindings()[i as int],
            lookup_spec(self@, r.0) == Some(r.1@),
    {
        let ghost ps = pairs_view(self.entries@);
        proof {
            lemma_table_of(ps);
        }
        assert(table_of(ps)[ps[i as int].0] == ps[i as int].1);
        &self.entries[i]
    }

    /// The action bound to `chord`, if any.
    pub fn lookup(&self, chord: &Chord) -> (r: Option<&Action>)
        requires
            self.wf(),
        ensures
            match r {
                Some(a) => lookup_spec(self@, *chord) == Some(a@),
                None => lookup_spec(self@, *chord) is None,
            },
    {
        let ghost ps = pairs_view(self.entries@);
        proof {
            lemma_table_of(ps);
        }
        match self.index.get(&code_of(chord)) {
            Some(p) => {
                let p = *p;
                proof {
                    lemma_code_injective(self.entries@[p as int].0, *chord);
                }
                assert(ps[p as int].0 == *chord);
                assert(table_of(ps)[ps[p as int].0] == ps[p as int].1);
                assert(ps[p as int].1 == self.entries@[p as int].1@);
                Some(&self.entries[p].1)
            },
            None => {
                assert forall|j: int| 0 <= j < ps.len() implies ps[j].0 != *chord by {
                    assert(ps[j].0 == self.entries@[j].0);
                    assert(self.index@.contains_key(chord_code(self.entries@[j].0)));
                }
                None
            },
        }
    }

    /// Binds `chord` to `action`; an action with a parameter of the wrong kind,
    /// or a chord already bound, is refused, and the table is then unchanged.
    pub fn insert(&mut self, chord: Chord, action: Action) -> (r: Result<(), BuildError>)
        requires
            old(self).wf(),
        ensures
            final(self).wf(),
            match r {
                Ok(_) => insert_one(old(self)@, chord, action@) == Ok::<TableMap, BuildErrorView>(
                    final(self)@,
                ),
                Err(e) => insert_one(old(self)@, chord, action@) == Err::<TableMap, BuildErrorView>(
                    e@,
                ) && final(self)@ == old(self)@,
            },
    {
        match action.validate() {
            Err(e) => {
                return Err(BuildError::Action(e));
            },
            Ok(_) => {},
        }
        match self.lookup(&chord) {
            Some(existing) => {
                let existing = existing.duplicate();
                Err(BuildError::DuplicateBinding { chord, existing, conflicting: action })
            },
            None => {
                let ghost before = pairs_view(self.entries@);
                proof {
                    lemma_table_of(before);
                }
                let ghost av = action@;
                let ghost old_entries = self.entries@;
                let ghost old_index = self.index@;
                let code = code_of(&chord);
                let n = self.entries.len();
                assert(!old_index.contains_key(code)) by {
                    if old_index.contains_key(code) {
                        let q = old_index[code] as int;
                        lemma_code_injective(old_entries[q].0, chord);
                        assert(before[q].0 == chord);
                    }
                }
                self.entries.push((chord, action));
                self.index.insert(code, n);
                assert forall|i: int| 0 <= i < self.entries@.len() implies self.index@.contains_key(
                    chord_code(#[trigger] self.entries@[i].0),
                ) && self.index@[chord_code(self.entries@[i].0)] == i by {
                    if i < n {
                        assert(self.entries@[i] == old_entries[i]);
                        assert(chord_code(old_entries[i].0) != code);
                    }
                }
                assert forall|k: u128| #[trigger] self.index@.contains_key(k) implies self.index@[k]
                    < self.entries@.len() && chord_code(self.entries@[self.index@[k] as int].0) == k by {
                    if k != code {
                        assert(old_index.contains_key(k));
                        assert(self.entries@[old_index[k] as int] == old_entries[old_index[k] as int]);
                    }
                }
                assert(pairs_view(self.entries@) =~= before.push((chord, av)));
                assert(pairs_view(self.entries@).drop_last() =~= before);
                assert forall|i: int, j: int|
                    0 <= i < pairs_view(self.entries@).len() && 0 <= j < pairs_view(
                        self.entries@,
                    ).len() && i != j implies pairs_view(self.entries@)[i].0 != pairs_view(
                    self.entries@,
                )[j].0 by {
                    let ps = pairs_view(self.entries@);
                    if i < before.len() && j < before.len() {
                        assert(ps[i] == before[i] && ps[j] == before[j]);
                    } else if i < before.len() {
                        assert(ps[i] == before[i]);
                    } else {
                        assert(ps[j] == before[j]);
                    }
                }
                Ok(())
            },
        }
    }

    /// Binds the chord that `spec` parses to in `keys` to a copy of `action`.
    pub fn bind(self, keys: &KeyTable, spec: &str, action: &Action) -> (r: Result<BindingTable, BuildError>)
        requires
            self.wf(),
            keys@.no_duplicates(),
        ensures
            r is Ok ==> r->Ok_0.wf(),
            table_view(r) == bind_spec(keys@, self@, spec@, action@),
    {
        let mut t = self;
        match parse_chord(keys, spec) {
            Err(e) => Err(BuildError::Parse(e)),
            Ok(c) => match t.insert(c, action.duplicate()) {
                Ok(_) => Ok(t),
                Err(e) => Err(e),
            },
        }
    }

    /// Binds every expansion of `template`, in order.
    pub fn bind_template(self, keys: &KeyTable, template: &Template) -> (r: Result<
        BindingTable,
        BuildError,
    >)
        requires
            self.wf(),
            keys@.no_duplicates(),
        ensures
            r is Ok ==> r->Ok_0.wf(),
            table_view(r) == template_spec(
                keys@,
                self@,
                template.pattern@,
                labels_view(template.labels@),
                template.command,
            ),
    {
        let mut t = self;
        let pairs = match expand(keys, template.pattern.as_str(), &template.labels, template.command) {
            Err(e) => {
                return Err(BuildError::Template(e));
            },
            Ok(pairs) => pairs,
        };
        let ghost pv = pairs_view(pairs@);
        let ghost m0 = t@;
        let mut i: usize = 0;
        assert(pv.take(0) =~= Seq::<(Chord, ActionView)>::empty());
        while i < pairs.len()
            invariant
                t.wf(),
                pv == pairs_view(pairs@),
                i <= pairs@.len(),
                insert_all(m0, pv.take(i as int)) == Ok::<TableMap, BuildErrorView>(t@),
                m0 == self@,
                expand_spec(
                    keys@,
                    template.pattern@,
                    labels_view(template.labels@),
                    template.command,
                ) == Ok::<Seq<(Chord, ActionView)>, TemplateErrorView>(pv),
            decreases pairs@.len() - i,
        {
            assert(pv.take(i as int + 1).drop_last() =~= pv.take(i as int));
            assert(pv.take(i as int + 1).last() == pv[i as int]);
            let (c, a) = (pairs[i].0, pairs[i].1.duplicate());
            assert(pv[i as int] == (c, a@));
            match t.insert(c, a) {
                Ok(_) => {},
                Err(e) => {
                    proof {
                        lemma_insert_all_err_prefix(m0, pv, i as int + 1);
                    }
                    return Err(e);
                },
            }
            i += 1;
        }
        assert(pv.take(pairs@.len() as int) =~= pv);
        Ok(t)
    }
}

proof fn lemma_insert_all_err_prefix(m: TableMap, pairs: Seq<(Chord, ActionView)>, k: int)
    requires
        0 <= k <= pairs.len(),
        insert_all(m, pairs.take(k)) is Err,
    ensures
        insert_all(m, pairs) == insert_all(m, pairs.take(k)),
    decreases pairs.len(),
{
    if k == pairs.len() {
        assert(pairs.take(k) =~= pairs);
    } else {
        assert(pairs.drop_last().take(k) =~= pairs.take(k));
        lemma_insert_all_err_prefix(m, pairs.drop_last(), k);
    }
}

proof fn lemma_bind_each_err_prefix(
    names: Seq<Seq<char>>,
    m: TableMap,
    decls: Seq<(Seq<char>, ActionView)>,
    k: int,
)
    requires
        0 <= k <= decls.len(),
        bind_each(names, m, decls.take(k)) is Err,
    ensures
        bind_each(names, m, decls) == bind_each(names, m, decls.take(k)),
    decreases decls.len(),
{
    if k == decls.len() {
        assert(decls.take(k) =~= decls);
    } else {
        assert(decls.drop_last().take(k) =~= decls.take(k));
        lemma_bind_each_err_prefix(names, m, decls.drop_last(), k);
    }
}

proof fn lemma_template_each_err_prefix(
    names: Seq<Seq<char>>,
    m: TableMap,
    ts: Seq<(Seq<char>, Seq<(Seq<char>, usize)>, crate::action::IndexedCommand)>,
    k: int,
)
    requires
        0 <= k <= ts.len(),
        template_each(names, m, ts.take(k)) is Err,
    ensures
        template_each(names, m, ts) == template_each(names, m, ts.take(k)),
    decreases ts.len(),
{
    if k == ts.len() {
        assert(ts.take(k) =~= ts);
    } else {
        assert(ts.drop_last().take(k) =~= ts.take(k));
        lemma_template_each_err_prefix(names, m, ts.drop_last(), k);
    }
}

/// Builds a table from explicit `(chord spec, action)` declarations followed
/// by templates, in declaration order. Fails on the first spec that does not
/// parse, template that does not expand, or chord bound twice.
pub fn build(keys: &KeyTable, explicit: &Vec<(String, Action)>, templates: &Vec<Template>) -> (r:
    Result<BindingTable, BuildError>)
    requires
        keys@.no_duplicates(),
    ensures
        r is Ok ==> r->Ok_0.wf(),
        table_view(r) == build_spec(keys@, decls_view(explicit@), templates_view(templates@)),
{
    let ghost dv = decls_view(explicit@);
    let ghost tv = templates_view(templates@);
    let mut t = BindingTable::new();
    let mut i: usize = 0;
    assert(dv.take(0) =~= Seq::<(Seq<char>, ActionView)>::empty());
    while i < explicit.len()
        invariant
            keys@.no_duplicates(),
            t.wf(),
            dv == decls_view(explicit@),
            i <= explicit@.len(),
            bind_each(keys@, TableMap::empty(), dv.take(i as int)) == Ok::<TableMap, BuildErrorView>(
                t@,
            ),
        decreases explicit@.len() - i,
    {
        assert(dv.take(i as int + 1).drop_last() =~= dv.take(i as int));
        assert(dv.take(i as int + 1).last() == dv[i as int]);
        assert(dv[i as int] == (explicit@[i as int].0@, explicit@[i as int].1@));
        match t.bind(keys, explicit[i].0.as_str(), &explicit[i].1) {
            Ok(t2) => {
                t = t2;
            },
            Err(e) => {
                proof {
                    lemma_bind_each_err_prefix(keys@, TableMap::empty(), dv, i as int + 1);
                }
                return Err(e);
            },
        }
        i += 1;
    }
    assert(dv.take(explicit@.len() as int) =~= dv);
    let ghost m0 = t@;
    let mut j: usize = 0;
    assert(tv.take(0) =~= Seq::<(Seq<char>, Seq<(Seq<char>, usize)>, crate::action::IndexedCommand)>::empty());
    while j < templates.len()
        invariant
            keys@.no_duplicates(),
            t.wf(),
            tv == templates_view(templates@),
            j <= templates@.len(),
            template_each(keys@, m0, tv.take(j as int)) == Ok::<TableMap, BuildErrorView>(t@),
            bind_each(keys@, TableMap::empty(), dv) == Ok::<TableMap, BuildErrorView>(m0),
            dv == decls_view(explicit@),
        decreases templates@.len() - j,
    {
        assert(tv.take(j as int + 1).drop_last() =~= tv.take(j as int));
        assert(tv.take(j as int + 1).last() == tv[j as int]);
        assert(tv[j as int] == template_view(templates@[j as int]));
        match t.bind_template(keys, &templates[j]) {
            Ok(t2) => {
                t = t2;
            },
            Err(e) => {
                proof {
                    lemma_template_each_err_prefix(keys@, m0, tv, j as int + 1);
                }
                return Err(e);
            },
        }
        j += 1;
    }
    assert(tv.take(templates@.len() as int) =~= tv);
    Ok(t)
}

/// After a binding is inserted, a lookup of its chord gives its action, and a
/// lookup of any other chord gives what it gave before.
pub proof fn lemma_insert_round_trip(m: TableMap, c: Chord, a: ActionView, other: Chord)
    requires
        insert_one(m, c, a) is Ok,
    ensures
        lookup_spec(insert_one(m, c, a)->Ok_0, c) == Some(a),
        other != c ==> lookup_spec(insert_one(m, c, a)->Ok_0, other) == lookup_spec(m, other),
{
}

/// When a list of bindings is inserted without conflict, a lookup of each
/// inserted chord gives the action it was inserted with, and a lookup of any
/// chord not among them gives what it gave before.
pub proof fn lemma_insert_all_round_trip(m: TableMap, pairs: Seq<(Chord, ActionView)>)
    requires
        insert_all(m, pairs) is Ok,
    ensures
        chords_unique(pairs),
        forall|i: int| 0 <= i < pairs.len() ==> !m.contains_key(#[trigger] pairs[i].0),
        forall|i: int| 0 <= i < pairs.len() ==> action_valid(#[trigger] pairs[i].1),
        forall|i: int|
            0 <= i < pairs.len() ==> lookup_spec(insert_all(m, pairs)->Ok_0, #[trigger] pairs[i].0)
                == Some(pairs[i].1),
        forall|c: Chord|
            (forall|i: int| 0 <= i < pairs.len() ==> pairs[i].0 != c) ==> lookup_spec(
                #[trigger] insert_all(m, pairs)->Ok_0,
                c,
            ) == lookup_spec(m, c),
    decreases pairs.len(),
{
    if pairs.len() > 0 {
        let p = pairs.drop_last();
        let n = pairs.len() - 1;
        let last = pairs.last();
        lemma_insert_all_round_trip(m, p);
        let m1 = insert_all(m, p)->Ok_0;
        assert(!m1.contains_key(last.0));
        assert forall|i: int| 0 <= i < n implies pairs[i].0 != last.0 by {
            assert(p[i] == pairs[i]);
            assert(lookup_spec(m1, p[i].0) == Some(p[i].1));
        }
        assert(!m.contains_key(last.0)) by {
            if m.contains_key(last.0) {
                if exists|i: int| 0 <= i < p.len() && p[i].0 == last.0 {
                    let i = choose|i: int| 0 <= i < p.len() && p[i].0 == last.0;
                    assert(!m.contains_key(p[i].0));
                } else {
                    assert(lookup_spec(m1, last.0) == lookup_spec(m, last.0));
                }
            }
        }
        assert forall|i: int| 0 <= i < pairs.len() implies !m.contains_key(#[trigger] pairs[i].0) by {
            if i < n {
                assert(p[i] == pairs[i]);
            }
        }
        assert forall|i: int| 0 <= i < pairs.len() implies action_valid(#[trigger] pairs[i].1) by {
            if i < n {
                assert(p[i] == pairs[i]);
            }
        }
        assert forall|i: int, j: int|
            0 <= i < pairs.len() && 0 <= j < pairs.len() && i != j implies pairs[i].0
            != pairs[j].0 by {
            if i < n && j < n {
                assert(p[i] == pairs[i] && p[j] == pairs[j]);
            }
        }
        assert forall|i: int| 0 <= i < pairs.len() implies lookup_spec(
            insert_all(m, pairs)->Ok_0,
            #[trigger] pairs[i].0,
        ) == Some(pairs[i].1) by {
            if i < n {
                assert(p[i] == pairs[i]);
                assert(lookup_spec(m1, p[i].0) == Some(p[i].1));
            }
        }
        assert forall|c: Chord|
            (forall|i: int| 0 <= i < pairs.len() ==> pairs[i].0 != c) implies lookup_spec(
            #[trigger] insert_all(m, pairs)->Ok_0,
            c,
        ) == lookup_spec(m, c) by {
            assert forall|i: int| 0 <= i < p.len() implies p[i].0 != c by {
                assert(p[i] == pairs[i]);
            }
            assert(pairs[n].0 != c);
        }
    }
}

/// A successful run of explicit declarations binds the chord of each
/// declaration to its action, and keeps every binding that was already there.
pub proof fn lemma_bind_each_round_trip(
    names: Seq<Seq<char>>,
    m: TableMap,
    decls: Seq<(Seq<char>, ActionView)>,
)
    requires
        bind_each(names, m, decls) is Ok,
    ensures
        forall|i: int|
            0 <= i < decls.len() ==> parse_spec(names, #[trigger] decls[i].0) is Ok && lookup_spec(
                bind_each(names, m, decls)->Ok_0,
                parse_spec(names, decls[i].0)->Ok_0,
            ) == Some(decls[i].1),
        forall|c: Chord|
            m.contains_key(c) ==> lookup_spec(#[trigger] bind_each(names, m, decls)->Ok_0, c)
                == lookup_spec(m, c),
    decreases decls.len(),
{
    if decls.len() > 0 {
        let p = decls.drop_last();
        let n = decls.len() - 1;
        lemma_bind_each_round_trip(names, m, p);
        let m1 = bind_each(names, m, p)->Ok_0;
        let c = parse_spec(names, decls[n].0)->Ok_0;
        assert(!m1.contains_key(c));
        assert forall|i: int| 0 <= i < decls.len() implies parse_spec(
            names,
            #[trigger] decls[i].0,
        ) is Ok && lookup_spec(bind_each(names, m, decls)->Ok_0, parse_spec(names, decls[i].0)->Ok_0)
            == Some(decls[i].1) by {
            if i < n {
                assert(p[i] == decls[i]);
                assert(lookup_spec(m1, parse_spec(names, p[i].0)->Ok_0) == Some(p[i].1));
            }
        }
        assert forall|k: Chord| m.contains_key(k) implies lookup_spec(
            #[trigger] bind_each(names, m, decls)->Ok_0,
            k,
        ) == lookup_spec(m, k) by {
            assert(lookup_spec(m1, k) == lookup_spec(m, k));
        }
    }
}

/// A successful run of templates binds every chord of each expansion to its
/// action, and keeps every binding that was already there.
pub proof fn lemma_template_each_round_trip(
    names: Seq<Seq<char>>,
    m: TableMap,
    ts: Seq<(Seq<char>, Seq<(Seq<char>, usize)>, crate::action::IndexedCommand)>,
)
    requires
        template_each(names, m, ts) is Ok,
    ensures
        forall|j: int|
            0 <= j < ts.len() ==> expand_spec(names, #[trigger] ts[j].0, ts[j].1, ts[j].2) is Ok,
        forall|j: int, k: int|
            0 <= j < ts.len() && 0 <= k < expand_spec(names, ts[j].0, ts[j].1, ts[j].2)->Ok_0.len()
                ==> lookup_spec(
                template_each(names, m, ts)->Ok_0,
                (#[trigger] expand_spec(names, ts[j].0, ts[j].1, ts[j].2)->Ok_0[k]).0,
            ) == Some(expand_spec(names, ts[j].0, ts[j].1, ts[j].2)->Ok_0[k].1),
        forall|c: Chord|
            m.contains_key(c) ==> lookup_spec(#[trigger] template_each(names, m, ts)->Ok_0, c)
                == lookup_spec(m, c),
    decreases ts.len(),
{
    if ts.len() > 0 {
        let p = ts.drop_last();
        let n = ts.len() - 1;
        lemma_template_each_round_trip(names, m, p);
        let m1 = template_each(names, m, p)->Ok_0;
        let pairs = expand_spec(names, ts[n].0, ts[n].1, ts[n].2)->Ok_0;
        lemma_insert_all_round_trip(m1, pairs);
        let m2 = insert_all(m1, pairs)->Ok_0;
        assert(template_each(names, m, ts)->Ok_0 == m2);
        assert forall|c: Chord| m1.contains_key(c) implies lookup_spec(m2, c) == lookup_spec(m1, c) by {
            assert forall|i: int| 0 <= i < pairs.len() implies pairs[i].0 != c by {
                assert(!m1.contains_key(pairs[i].0));
            }
        }
        assert forall|j: int| 0 <= j < ts.len() implies expand_spec(
            names,
            #[trigger] ts[j].0,
            ts[j].1,
            ts[j].2,
        ) is Ok by {
            if j < n {
                assert(p[j] == ts[j]);
            }
        }
        assert forall|j: int, k: int|
            0 <= j < ts.len() && 0 <= k < expand_spec(names, ts[j].0, ts[j].1, ts[j].2)->Ok_0.len()
                implies lookup_spec(
            m2,
            (#[trigger] expand_spec(names, ts[j].0, ts[j].1, ts[j].2)->Ok_0[k]).0,
        ) == Some(expand_spec(names, ts[j].0, ts[j].1, ts[j].2)->Ok_0[k].1) by {
            if j < n {
                assert(p[j] == ts[j]);
                let e = expand_spec(names, p[j].0, p[j].1, p[j].2)->Ok_0[k];
                assert(lookup_spec(m1, e.0) == Some(e.1));
            } else {
                assert(pairs[k] == expand_spec(names, ts[j].0, ts[j].1, ts[j].2)->Ok_0[k]);
            }
        }
        assert forall|c: Chord| m.contains_key(c) implies lookup_spec(
            #[trigger] template_each(names, m, ts)->Ok_0,
            c,
        ) == lookup_spec(m, c) by {
            assert(lookup_spec(m1, c) == lookup_spec(m, c));
        }
    }
}

/// A successful build binds the chord of every explicit declaration, and
/// every chord of every template expansion, to the action it was declared with.
pub proof fn lemma_build_round_trip(
    names: Seq<Seq<char>>,
    decls: Seq<(Seq<char>, ActionView)>,
    ts: Seq<(Seq<char>, Seq<(Seq<char>, usize)>, crate::action::IndexedCommand)>,
)
    requires
        build_spec(names, decls, ts) is Ok,
    ensures
        forall|i: int|
            0 <= i < decls.len() ==> parse_spec(names, #[trigger] decls[i].0) is Ok && lookup_spec(
                build_spec(names, decls, ts)->Ok_0,
                parse_spec(names, decls[i].0)->Ok_0,
            ) == Some(decls[i].1),
        forall|j: int, k: int|
            0 <= j < ts.len() && 0 <= k < expand_spec(names, ts[j].0, ts[j].1, ts[j].2)->Ok_0.len()
                ==> lookup_spec(
                build_spec(names, decls, ts)->Ok_0,
                (#[trigger] expand_spec(names, ts[j].0, ts[j].1, ts[j].2)->Ok_0[k]).0,
            ) == Some(expand_spec(names, ts[j].0, ts[j].1, ts[j].2)->Ok_0[k].1),
{
    lemma_bind_each_round_trip(names, Map::empty(), decls);
    let m0 = bind_each(names, Map::empty(), decls)->Ok_0;
    lemma_template_each_round_trip(names, m0, ts);
    assert forall|i: int| 0 <= i < decls.len() implies parse_spec(names, #[trigger] decls[i].0) is Ok
        && lookup_spec(build_spec(names, decls, ts)->Ok_0, parse_spec(names, decls[i].0)->Ok_0)
        == Some(decls[i].1) by {
        let c = parse_spec(names, decls[i].0)->Ok_0;
        assert(lookup_spec(m0, c) == Some(decls[i].1));
        assert(m0.contains_key(c));
    }
}

/// Bindings with distinct chords, none bound in `m` and all accepted by the
/// registry, are inserted without conflict.
pub proof fn lemma_insert_all_ok(m: TableMap, pairs: Seq<(Chord, ActionView)>)
    requires
        chords_unique(pairs),
        forall|i: int| 0 <= i < pairs.len() ==> !m.contains_key(#[trigger] pairs[i].0),
        forall|i: int| 0 <= i < pairs.len() ==> action_valid(#[trigger] pairs[i].1),
    ensures
        insert_all(m, pairs) is Ok,
    decreases pairs.len(),
{
    if pairs.len() > 0 {
        let p = pairs.drop_last();
        let n = pairs.len() - 1;
        assert forall|i: int| 0 <= i < p.len() implies !m.contains_key(#[trigger] p[i].0) by {
            assert(p[i] == pairs[i]);
        }
        assert forall|i: int| 0 <= i < p.len() implies action_valid(#[trigger] p[i].1) by {
            assert(p[i] == pairs[i]);
        }
        assert(chords_unique(p)) by {
            assert forall|i: int, j: int|
                0 <= i < p.len() && 0 <= j < p.len() && i != j implies p[i].0 != p[j].0 by {
                assert(p[i] == pairs[i] && p[j] == pairs[j]);
            }
        }
        lemma_insert_all_ok(m, p);
        lemma_insert_all_round_trip(m, p);
        let last = pairs[n];
        assert forall|i: int| 0 <= i < p.len() implies p[i].0 != last.0 by {
            assert(p[i] == pairs[i]);
        }
        assert(action_valid(last.1));
        assert(!m.contains_key(last.0));
        assert(lookup_spec(insert_all(m, p)->Ok_0, last.0) == lookup_spec(m, last.0));
    }
}

/// The binding that one label of a template gives: its chord, and `c` with
/// the label's workspace index.
pub open spec fn label_binding(
    names: Seq<Seq<char>>,
    p: Seq<char>,
    c: IndexedCommand,
    l: (Seq<char>, usize),
) -> Result<(Chord, ActionView), ParseErrorView> {
    match parse_spec(names, substitute(p, l.0)) {
        Err(e) => Err(e),
        Ok(ch) => Ok((ch, indexed_action(c, l.1))),
    }
}

proof fn lemma_expand_labels_shape(
    names: Seq<Seq<char>>,
    p: Seq<char>,
    ls: Seq<(Seq<char>, usize)>,
    c: IndexedCommand,
)
    ensures
        expand_labels(names, p, ls, c) is Ok <==> forall|i: int|
            0 <= i < ls.len() ==> label_binding(names, p, c, #[trigger] ls[i]) is Ok,
        expand_labels(names, p, ls, c) is Ok ==> expand_labels(names, p, ls, c)->Ok_0.len()
            == ls.len() && forall|i: int|
            0 <= i < ls.len() ==> label_binding(names, p, c, #[trigger] ls[i]) == Ok::<
                (Chord, ActionView),
                ParseErrorView,
            >(expand_labels(names, p, ls, c)->Ok_0[i]),
    decreases ls.len(),
{
    if ls.len() > 0 {
        let q = ls.drop_last();
        let n = ls.len() - 1;
        lemma_expand_labels_shape(names, p, q, c);
        assert forall|i: int| 0 <= i < q.len() implies q[i] == ls[i] by {}
        if expand_labels(names, p, q, c) is Ok {
            let r = expand_labels(names, p, q, c)->Ok_0;
            if (forall|i: int| 0 <= i < ls.len() ==> label_binding(names, p, c, #[trigger] ls[i]) is Ok) {
                assert(label_binding(names, p, c, ls[n]) is Ok);
            }
            if expand_labels(names, p, ls, c) is Ok {
                let r2 = expand_labels(names, p, ls, c)->Ok_0;
                assert forall|i: int| 0 <= i < ls.len() implies label_binding(
                    names,
                    p,
                    c,
                    #[trigger] ls[i],
                ) == Ok::<(Chord, ActionView), ParseErrorView>(r2[i]) by {
                    if i < n {
                        assert(q[i] == ls[i]);
                    }
                }
            }
        } else {
            let k = choose|i: int| 0 <= i < q.len() && !(label_binding(names, p, c, #[trigger] q[i]) is Ok);
            assert(q[k] == ls[k]);
        }
    }
}

/// Reordering the labels of a template leaves the bindings it adds to a table
/// unchanged.
pub proof fn lemma_template_label_order(
    names: Seq<Seq<char>>,
    m: TableMap,
    p: Seq<char>,
    l1: Seq<(Seq<char>, usize)>,
    l2: Seq<(Seq<char>, usize)>,
    c: IndexedCommand,
)
    requires
        template_spec(names, m, p, l1, c) is Ok,
        l2.to_multiset() =~= l1.to_multiset(),
    ensures
        template_spec(names, m, p, l2, c) == template_spec(names, m, p, l1, c),
{
    lemma_expand_labels_shape(names, p, l1, c);
    lemma_expand_labels_shape(names, p, l2, c);
    l1.to_multiset_ensures();
    l2.to_multiset_ensures();
    assert forall|x: (Seq<char>, usize)| l2.contains(x) <==> l1.contains(x) by {
        assert(l2.to_multiset().count(x) == l1.to_multiset().count(x));
    }
    let q1 = expand_labels(names, p, l1, c)->Ok_0;
    lemma_insert_all_round_trip(m, q1);
    // each label of l2 is a label of l1
    assert forall|i: int| 0 <= i < l2.len() implies exists|j: int|
        0 <= j < l1.len() && l1[j] == #[trigger] l2[i] by {
        assert(l2.contains(l2[i]));
    }
    assert forall|j: int| 0 <= j < l1.len() implies exists|i: int|
        0 <= i < l2.len() && l2[i] == #[trigger] l1[j] by {
        assert(l1.contains(l1[j]));
    }
    assert forall|i: int| 0 <= i < l2.len() implies label_binding(names, p, c, #[trigger] l2[i]) is Ok by {
        let j = choose|j: int| 0 <= j < l1.len() && l1[j] == l2[i];
    }
    let q2 = expand_labels(names, p, l2, c)->Ok_0;
    // no label repeats
    assert(l1.no_duplicates()) by {
        assert forall|i: int, j: int|
            0 <= i < l1.len() && 0 <= j < l1.len() && i != j implies l1[i] != l1[j] by {
            assert(label_binding(names, p, c, l1[i]) == Ok::<(Chord, ActionView), ParseErrorView>(q1[i]));
            assert(label_binding(names, p, c, l1[j]) == Ok::<(Chord, ActionView), ParseErrorView>(q1[j]));
        }
    }
    l1.lemma_multiset_has_no_duplicates();
    assert forall|x: (Seq<char>, usize)| l2.to_multiset().contains(x) implies l2.to_multiset().count(x)
        == 1 by {
        assert(l1.to_multiset().contains(x));
    }
    l2.lemma_multiset_has_no_duplicates_conv();
    // every binding of q2 is one of q1, and the other way round
    assert forall|i: int| 0 <= i < q2.len() implies exists|j: int|
        0 <= j < q1.len() && q1[j] == #[trigger] q2[i] by {
        let j = choose|j: int| 0 <= j < l1.len() && l1[j] == l2[i];
        assert(label_binding(names, p, c, l2[i]) == Ok::<(Chord, ActionView), ParseErrorView>(q2[i]));
        assert(label_binding(names, p, c, l1[j]) == Ok::<(Chord, ActionView), ParseErrorView>(q1[j]));
    }
    assert forall|j: int| 0 <= j < q1.len() implies exists|i: int|
        0 <= i < q2.len() && q2[i] == #[trigger] q1[j] by {
        let i = choose|i: int| 0 <= i < l2.len() && l2[i] == l1[j];
        assert(label_binding(names, p, c, l2[i]) == Ok::<(Chord, ActionView), ParseErrorView>(q2[i]));
        assert(label_binding(names, p, c, l1[j]) == Ok::<(Chord, ActionView), ParseErrorView>(q1[j]));
    }
    assert(q2.no_duplicates()) by {
        assert forall|i: int, k: int|
            0 <= i < q2.len() && 0 <= k < q2.len() && i != k implies q2[i] != q2[k] by {
            let ji = choose|j: int| 0 <= j < l1.len() && l1[j] == l2[i];
            let jk = choose|j: int| 0 <= j < l1.len() && l1[j] == l2[k];
            assert(l2[i] != l2[k]);
            assert(label_binding(names, p, c, l2[i]) == Ok::<(Chord, ActionView), ParseErrorView>(q2[i]));
            assert(label_binding(names, p, c, l2[k]) == Ok::<(Chord, ActionView), ParseErrorView>(q2[k]));
            assert(label_binding(names, p, c, l1[ji]) == Ok::<(Chord, ActionView), ParseErrorView>(q1[ji]));
            assert(label_binding(names, p, c, l1[jk]) == Ok::<(Chord, ActionView), ParseErrorView>(q1[jk]));
            assert(q1[ji].0 != q1[jk].0);
        }
    }
    assert forall|x: (Chord, ActionView)| q1.contains(x) <==> q2.contains(x) by {
        if q1.contains(x) {
            let j = choose|j: int| 0 <= j < q1.len() && q1[j] == x;
            let i = choose|i: int| 0 <= i < q2.len() && q2[i] == q1[j];
        }
        if q2.contains(x) {
            let i = choose|i: int| 0 <= i < q2.len() && q2[i] == x;
            let j = choose|j: int| 0 <= j < q1.len() && q1[j] == q2[i];
        }
    }
    lemma_insert_all_reorder(m, q1, q2);
}

/// Explicit declarations whose chord specs parse alike (such as `"M-S-j"` and
/// `"S-M-j"`) and whose actions are equal bind the same table.
pub proof fn lemma_bind_each_same_parse(
    names: Seq<Seq<char>>,
    m: TableMap,
    d1: Seq<(Seq<char>, ActionView)>,
    d2: Seq<(Seq<char>, ActionView)>,
)
    requires
        d1.len() == d2.len(),
        forall|i: int|
            0 <= i < d1.len() ==> parse_spec(names, #[trigger] d1[i].0) == parse_spec(names, d2[i].0)
                && d1[i].1 == d2[i].1,
    ensures
        bind_each(names, m, d1) == bind_each(names, m, d2),
    decreases d1.len(),
{
    if d1.len() > 0 {
        let n = d1.len() - 1;
        assert forall|i: int| 0 <= i < n implies parse_spec(names, #[trigger] d1.drop_last()[i].0)
            == parse_spec(names, d2.drop_last()[i].0) && d1.drop_last()[i].1 == d2.drop_last()[i].1 by {
            assert(d1.drop_last()[i] == d1[i] && d2.drop_last()[i] == d2[i]);
        }
        lemma_bind_each_same_parse(names, m, d1.drop_last(), d2.drop_last());
        assert(parse_spec(names, d1[n].0) == parse_spec(names, d2[n].0));
    }
}

/// Inserting the same bindings in another order gives the same table.
pub proof fn lemma_insert_all_reorder(
    m: TableMap,
    q1: Seq<(Chord, ActionView)>,
    q2: Seq<(Chord, ActionView)>,
)
    requires
        insert_all(m, q1) is Ok,
        q2.no_duplicates(),
        forall|x: (Chord, ActionView)| q1.contains(x) <==> q2.contains(x),
    ensures
        insert_all(m, q2) == insert_all(m, q1),
{
    lemma_insert_all_round_trip(m, q1);
    assert forall|i: int| 0 <= i < q2.len() implies exists|j: int|
        0 <= j < q1.len() && q1[j] == #[trigger] q2[i] by {
        assert(q2.contains(q2[i]));
    }
    assert forall|j: int| 0 <= j < q1.len() implies exists|i: int|
        0 <= i < q2.len() && q2[i] == #[trigger] q1[j] by {
        assert(q1.contains(q1[j]));
    }
    assert(chords_unique(q2)) by {
        assert forall|i: int, k: int|
            0 <= i < q2.len() && 0 <= k < q2.len() && i != k implies q2[i].0 != q2[k].0 by {
            let ji = choose|j: int| 0 <= j < q1.len() && q1[j] == q2[i];
            let jk = choose|j: int| 0 <= j < q1.len() && q1[j] == q2[k];
            assert(q2[i] != q2[k]);
        }
    }
    assert forall|i: int| 0 <= i < q2.len() implies !m.contains_key(#[trigger] q2[i].0) && action_valid(
        q2[i].1,
    ) by {
        let j = choose|j: int| 0 <= j < q1.len() && q1[j] == q2[i];
        assert(!m.contains_key(q1[j].0) && action_valid(q1[j].1));
    }
    assert forall|i: int| 0 <= i < q2.len() implies action_valid(#[trigger] q2[i].1) by {
        assert(!m.contains_key(q2[i].0) && action_valid(q2[i].1));
    }
    lemma_insert_all_ok(m, q2);
    lemma_insert_all_round_trip(m, q2);
    let r1 = insert_all(m, q1)->Ok_0;
    let r2 = insert_all(m, q2)->Ok_0;
    assert forall|k: Chord| lookup_spec(r2, k) == lookup_spec(r1, k) by {
        if exists|j: int| 0 <= j < q1.len() && q1[j].0 == k {
            let j = choose|j: int| 0 <= j < q1.len() && q1[j].0 == k;
            let i = choose|i: int| 0 <= i < q2.len() && q2[i] == q1[j];
            assert(lookup_spec(r1, q1[j].0) == Some(q1[j].1));
            assert(lookup_spec(r2, q2[i].0) == Some(q2[i].1));
        } else {
            assert forall|i: int| 0 <= i < q2.len() implies q2[i].0 != k by {
                let j = choose|j: int| 0 <= j < q1.len() && q1[j] == q2[i];
            }
            assert(lookup_spec(r1, k) == lookup_spec(m, k));
            assert(lookup_spec(r2, k) == lookup_spec(m, k));
        }
    }
    assert(r1 =~= r2) by {
        assert forall|k: Chord| r1.contains_key(k) <==> r2.contains_key(k) by {
            assert(lookup_spec(r2, k) == lookup_spec(r1, k));
        }
        assert forall|k: Chord| r1.contains_key(k) implies r1[k] == r2[k] by {
            assert(lookup_spec(r2, k) == lookup_spec(r1, k));
        }
    }
}

/// The bindings that explicit declarations give, once every spec parses.
pub open spec fn decl_pairs(names: Seq<Seq<char>>, d: Seq<(Seq<char>, ActionView)>) -> Seq<
    (Chord, ActionView),
> {
    d.map_values(|x: (Seq<char>, ActionView)| (parse_spec(names, x.0)->Ok_0, x.1))
}

proof fn lemma_bind_each_pairs(names: Seq<Seq<char>>, m: TableMap, d: Seq<(Seq<char>, ActionView)>)
    requires
        forall|i: int| 0 <= i < d.len() ==> parse_spec(names, #[trigger] d[i].0) is Ok,
    ensures
        bind_each(names, m, d) == insert_all(m, decl_pairs(names, d)),
    decreases d.len(),
{
    if d.len() > 0 {
        let q = d.drop_last();
        assert forall|i: int| 0 <= i < q.len() implies parse_spec(names, #[trigger] q[i].0) is Ok by {
            assert(q[i] == d[i]);
        }
        lemma_bind_each_pairs(names, m, q);
        assert(decl_pairs(names, d).drop_last() =~= decl_pairs(names, q));
        assert(parse_spec(names, d[d.len() - 1].0) is Ok);
    }
}

/// Reordering explicit declarations leaves the table they bind unchanged.
pub proof fn lemma_bind_each_reorder(
    names: Seq<Seq<char>>,
    m: TableMap,
    d1: Seq<(Seq<char>, ActionView)>,
    d2: Seq<(Seq<char>, ActionView)>,
)
    requires
        bind_each(names, m, d1) is Ok,
        d2.to_multiset() =~= d1.to_multiset(),
    ensures
        bind_each(names, m, d2) == bind_each(names, m, d1),
{
    lemma_bind_each_round_trip(names, m, d1);
    d1.to_multiset_ensures();
    d2.to_multiset_ensures();
    assert forall|x: (Seq<char>, ActionView)| d2.contains(x) <==> d1.contains(x) by {
        assert(d2.to_multiset().count(x) == d1.to_multiset().count(x));
    }
    assert forall|i: int| 0 <= i < d2.len() implies exists|j: int|
        0 <= j < d1.len() && d1[j] == #[trigger] d2[i] by {
        assert(d2.contains(d2[i]));
    }
    assert forall|j: int| 0 <= j < d1.len() implies exists|i: int|
        0 <= i < d2.len() && d2[i] == #[trigger] d1[j] by {
        assert(d1.contains(d1[j]));
    }
    assert forall|i: int| 0 <= i < d2.len() implies parse_spec(names, #[trigger] d2[i].0) is Ok by {
        let j = choose|j: int| 0 <= j < d1.len() && d1[j] == d2[i];
        assert(parse_spec(names, d1[j].0) is Ok);
    }
    let q1 = decl_pairs(names, d1);
    let q2 = decl_pairs(names, d2);
    lemma_bind_each_pairs(names, m, d1);
    lemma_bind_each_pairs(names, m, d2);
    lemma_insert_all_round_trip(m, q1);
    assert(d1.no_duplicates()) by {
        assert forall|i: int, j: int|
            0 <= i < d1.len() && 0 <= j < d1.len() && i != j implies d1[i] != d1[j] by {
            assert(q1[i].0 != q1[j].0);
        }
    }
    d1.lemma_multiset_has_no_duplicates();
    assert forall|x: (Seq<char>, ActionView)| d2.to_multiset().contains(x) implies d2.to_multiset().count(
        x,
    ) == 1 by {
        assert(d1.to_multiset().contains(x));
    }
    d2.lemma_multiset_has_no_duplicates_conv();
    assert(q2.no_duplicates()) by {
        assert forall|i: int, k: int|
            0 <= i < q2.len() && 0 <= k < q2.len() && i != k implies q2[i] != q2[k] by {
            let a = choose|j: int| 0 <= j < d1.len() && d1[j] == d2[i];
            let b = choose|j: int| 0 <= j < d1.len() && d1[j] == d2[k];
            assert(d2[i] != d2[k]);
            assert(q1[a] == q2[i] && q1[b] == q2[k]);
            assert(q1[a].0 != q1[b].0);
        }
    }
    assert forall|x: (Chord, ActionView)| q1.contains(x) <==> q2.contains(x) by {
        if q1.contains(x) {
            let j = choose|j: int| 0 <= j < q1.len() && q1[j] == x;
            let i = choose|i: int| 0 <= i < d2.len() && d2[i] == d1[j];
            assert(q2[i] == x);
        }
        if q2.contains(x) {
            let i = choose|i: int| 0 <= i < q2.len() && q2[i] == x;
            let j = choose|j: int| 0 <= j < d1.len() && d1[j] == d2[i];
            assert(q1[j] == x);
        }
    }
    lemma_insert_all_reorder(m, q1, q2);
}

/// Reordering the labels of any template leaves the table that a run of
/// templates binds unchanged.
pub proof fn lemma_template_each_label_order(
    names: Seq<Seq<char>>,
    m: TableMap,
    ts1: Seq<(Seq<char>, Seq<(Seq<char>, usize)>, IndexedCommand)>,
    ts2: Seq<(Seq<char>, Seq<(Seq<char>, usize)>, IndexedCommand)>,
)
    requires
        template_each(names, m, ts1) is Ok,
        ts2.len() == ts1.len(),
        forall|i: int|
            0 <= i < ts1.len() ==> (#[trigger] ts2[i]).0 == ts1[i].0 && ts2[i].2 == ts1[i].2
                && ts2[i].1.to_multiset() =~= ts1[i].1.to_multiset(),
    ensures
        template_each(names, m, ts2) == template_each(names, m, ts1),
    decreases ts1.len(),
{
    if ts1.len() > 0 {
        let n = ts1.len() - 1;
        let p1 = ts1.drop_last();
        let p2 = ts2.drop_last();
        assert forall|i: int| 0 <= i < p1.len() implies (#[trigger] p2[i]).0 == p1[i].0 && p2[i].2
            == p1[i].2 && p2[i].1.to_multiset() =~= p1[i].1.to_multiset() by {
            assert(p1[i] == ts1[i] && p2[i] == ts2[i]);
        }
        lemma_template_each_label_order(names, m, p1, p2);
        let m2 = template_each(names, m, p1)->Ok_0;
        assert(ts2[n].0 == ts1[n].0 && ts2[n].2 == ts1[n].2);
        lemma_template_label_order(names, m2, ts1[n].0, ts1[n].1, ts2[n].1, ts1[n].2);
    }
}

/// Reordering the explicit declarations of a build, or the labels of any of
/// its templates, leaves the table it builds unchanged.
pub proof fn lemma_build_reorder(
    names: Seq<Seq<char>>,
    d1: Seq<(Seq<char>, ActionView)>,
    d2: Seq<(Seq<char>, ActionView)>,
    ts1: Seq<(Seq<char>, Seq<(Seq<char>, usize)>, IndexedCommand)>,
    ts2: Seq<(Seq<char>, Seq<(Seq<char>, usize)>, IndexedCommand)>,
)
    requires
        build_spec(names, d1, ts1) is Ok,
        d2.to_multiset() =~= d1.to_multiset(),
        ts2.len() == ts1.len(),
        forall|i: int|
            0 <= i < ts1.len() ==> (#[trigger] ts2[i]).0 == ts1[i].0 && ts2[i].2 == ts1[i].2
                && ts2[i].1.to_multiset() =~= ts1[i].1.to_multiset(),
    ensures
        build_spec(names, d2, ts2) == build_spec(names, d1, ts1),
{
    lemma_bind_each_reorder(names, Map::empty(), d1, d2);
    let m = bind_each(names, Map::empty(), d1)->Ok_0;
    lemma_template_each_label_order(names, m, ts1, ts2);
}

} // verus!
