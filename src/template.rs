//! Template expansion: one chord pattern with a `{}` placeholder, bound once
//! per label.
use vstd::prelude::*;
use crate::action::{indexed_action, Action, ActionView, IndexedCommand};
use crate::chord::{chars_of, parse_chars, parse_spec, Chord, KeyTable, ParseError, ParseErrorView};

verus! {

#[derive(Clone, Debug, PartialEq, Eq)]
pub enum TemplateError {
    MalformedPattern,
    Parse(ParseError),
}

pub enum TemplateErrorView {
    MalformedPattern,
    Parse(ParseErrorView),
}

impl View for TemplateError {
    type V = TemplateErrorView;

    open spec fn view(&self) -> TemplateErrorView {
        match self {
            TemplateError::MalformedPattern => TemplateErrorView::MalformedPattern,
            TemplateError::Parse(e) => TemplateErrorView::Parse(e@),
        }
    }
}

/// A chord pattern bound over labels: each label gives the chord, and
/// `command` with the workspace index paired with that label the action.
#[derive(Clone, Debug)]
pub struct Template {
    pub pattern: String,
    pub labels: Vec<(String, usize)>,
    pub command: IndexedCommand,
}

/// The views of a list of labels, each with its workspace index.
pub open spec fn labels_view(v: Seq<(String, usize)>) -> Seq<(Seq<char>, usize)> {
    v.map_values(|l: (String, usize)| (l.0@, l.1))
}

/// The views of a list of bindings.
pub open spec fn pairs_view(v: Seq<(Chord, Action)>) -> Seq<(Chord, ActionView)> {
    v.map_values(|e: (Chord, Action)| (e.0, e.1@))
}

/// A placeholder `{}` starts at position `i` of `p`.
pub open spec fn marker_at(p: Seq<char>, i: int) -> bool {
    0 <= i && i + 1 < p.len() && p[i] == '{' && p[i + 1] == '}'
}

/// `p` holds exactly one placeholder.
pub open spec fn single_marker(p: Seq<char>) -> bool {
    exists|i: int| marker_at(p, i) && forall|j: int| marker_at(p, j) ==> j == i
}

pub open spec fn marker_pos(p: Seq<char>) -> int {
    choose|i: int| marker_at(p, i)
}

/// `p` with its placeholder replaced by `label`.
pub open spec fn substitute(p: Seq<char>, label: Seq<char>) -> Seq<char> {
    p.take(marker_pos(p)) + label + p.skip(marker_pos(p) + 2)
}

/// The bindings of the labels, in order; the first label whose chord does not
/// parse is the error.
pub open spec fn expand_labels(
    names: Seq<Seq<char>>,
    p: Seq<char>,
    labels: Seq<(Seq<char>, usize)>,
    c: IndexedCommand,
) -> Result<Seq<(Chord, ActionView)>, ParseErrorView>
    decreases labels.len(),
{
    if labels.len() == 0 {
        Ok(Seq::empty())
    } else {
        match expand_labels(names, p, labels.drop_last(), c) {
            Err(e) => Err(e),
            Ok(ps) => match parse_spec(names, substitute(p, labels.last().0)) {
                Err(e) => Err(e),
                Ok(ch) => Ok(ps.push((ch, indexed_action(c, labels.last().1)))),
            },
        }
    }
}

/// What expanding the pattern `p` over `labels` gives.
pub open spec fn expand_spec(
    names: Seq<Seq<char>>,
    p: Seq<char>,
    labels: Seq<(Seq<char>, usize)>,
    c: IndexedCommand,
) -> Result<Seq<(Chord, ActionView)>, TemplateErrorView> {
    if !single_marker(p) {
        Err(TemplateErrorView::MalformedPattern)
    } else {
        match expand_labels(names, p, labels, c) {
            Err(e) => Err(TemplateErrorView::Parse(e)),
            Ok(ps) => Ok(ps),
        }
    }
}

pub open spec fn expand_view(r: Result<Vec<(Chord, Action)>, TemplateError>) -> Result<
    Seq<(Chord, ActionView)>,
    TemplateErrorView,
> {
    match r {
        Ok(v) => Ok(pairs_view(v@)),
        Err(e) => Err(e@),
    }
}

/// The position of the one placeholder of `p`, if it holds exactly one.
fn find_marker(p: &Vec<char>) -> (r: Option<usize>)
    ensures
        r is Some <==> single_marker(p@),
        r is Some ==> r->Some_0 == marker_pos(p@) && marker_at(p@, r->Some_0 as int),
{
    let mut found: Option<usize> = None;
    let mut i: usize = 0;
    while i < p.len()
        invariant
            i <= p@.len(),
            found is None ==> forall|j: int| 0 <= j < i ==> !marker_at(p@, j),
            found is Some ==> found->Some_0 < i && marker_at(p@, found->Some_0 as int) && forall|
                j: int,
            | 0 <= j < i && marker_at(p@, j) ==> j == found->Some_0,
        decreases p@.len() - i,
    {
        if i + 1 < p.len() && p[i] == '{' && p[i + 1] == '}' {
            match found {
                Some(k) => {
                    assert(marker_at(p@, k as int) && marker_at(p@, i as int));
                    return None;
                },
                None => {
                    found = Some(i);
                },
            }
        }
        i += 1;
    }
    match found {
        Some(k) => {
            assert forall|j: int| marker_at(p@, j) implies j == k by {
                assert(j < i);
            }
            assert(marker_at(p@, marker_pos(p@)));
            Some(k)
        },
        None => {
            assert forall|j: int| !marker_at(p@, j) by {
                if marker_at(p@, j) {
                    assert(j < i);
                }
            }
            None
        },
    }
}

/// `p` with the two characters at `pos` replaced by `label`.
fn substitute_at(p: &Vec<char>, pos: usize, label: &Vec<char>) -> (r: Vec<char>)
    requires
        pos + 2 <= p@.len(),
    ensures
        r@ == p@.take(pos as int) + label@ + p@.skip(pos + 2),
{
    let mut r: Vec<char> = Vec::new();
    let mut i: usize = 0;
    while i < pos
        invariant
            i <= pos,
            pos + 2 <= p@.len(),
            r@ == p@.take(i as int),
        decreases pos - i,
    {
        r.push(p[i]);
        i += 1;
        assert(r@ =~= p@.take(i as int));
    }
    let mut j: usize = 0;
    while j < label.len()
        invariant
            j <= label@.len(),
            r@ == p@.take(pos as int) + label@.take(j as int),
        decreases label@.len() - j,
    {
        r.push(label[j]);
        j += 1;
        assert(r@ =~= p@.take(pos as int) + label@.take(j as int));
    }
    assert(label@.take(label@.len() as int) =~= label@);
    let n = p.len();
    let mut k: usize = pos + 2;
    while k < n
        invariant
            n == p@.len(),
            pos + 2 <= k <= p@.len(),
            r@ == p@.take(pos as int) + label@ + p@.subrange(pos + 2, k as int),
        decreases p@.len() - k,
    {
        r.push(p[k]);
        k += 1;
        assert(r@ =~= p@.take(pos as int) + label@ + p@.subrange(pos + 2, k as int));
    }
    assert(p@.subrange(pos + 2, p@.len() as int) =~= p@.skip(pos + 2));
    r
}

proof fn lemma_expand_err_prefix(
    names: Seq<Seq<char>>,
    p: Seq<char>,
    labels: Seq<(Seq<char>, usize)>,
    c: IndexedCommand,
    k: int,
)
    requires
        0 <= k <= labels.len(),
        expand_labels(names, p, labels.take(k), c) is Err,
    ensures
        expand_labels(names, p, labels, c) == expand_labels(names, p, labels.take(k), c),
    decreases labels.len(),
{
    if k == labels.len() {
        assert(labels.take(k) =~= labels);
    } else {
        assert(labels.drop_last().take(k) =~= labels.take(k));
        lemma_expand_err_prefix(names, p, labels.drop_last(), c, k);
    }
}

/// Expands `pattern` over `labels`: each label replaces the placeholder, the
/// resulting spec is parsed, and it is bound to `command` with the workspace
/// index paired with the label. Fails on a pattern without exactly one placeholder, and on
/// the first label whose chord does not parse.
pub fn expand(keys: &KeyTable, pattern: &str, labels: &Vec<(String, usize)>, command: IndexedCommand) -> (r:
    Result<Vec<(Chord, Action)>, TemplateError>)
    requires
        keys@.no_duplicates(),
    ensures
        expand_view(r) == expand_spec(keys@, pattern@, labels_view(labels@), command),
{
    let p = chars_of(pattern);
    let pos = match find_marker(&p) {
        None => {
            return Err(TemplateError::MalformedPattern);
        },
        Some(pos) => pos,
    };
    let ghost ls = labels_view(labels@);
    let mut out: Vec<(Chord, Action)> = Vec::new();
    let mut i: usize = 0;
    assert(ls.take(0) =~= Seq::<(Seq<char>, usize)>::empty());
    assert(pairs_view(out@) =~= Seq::<(Chord, ActionView)>::empty());
    while i < labels.len()
        invariant
            keys@.no_duplicates(),
            p@ == pattern@,
            single_marker(p@),
            pos == marker_pos(p@),
            marker_at(p@, pos as int),
            ls == labels_view(labels@),
            i <= labels@.len(),
            expand_labels(keys@, p@, ls.take(i as int), command) == Ok::<
                Seq<(Chord, ActionView)>,
                ParseErrorView,
            >(pairs_view(out@)),
        decreases labels@.len() - i,
    {
        let label = chars_of(labels[i].0.as_str());
        let index = labels[i].1;
        assert(label@ == ls[i as int].0 && index == ls[i as int].1);
        let spec = substitute_at(&p, pos, &label);
        assert(ls.take(i as int + 1).drop_last() =~= ls.take(i as int));
        assert(ls.take(i as int + 1).last() == ls[i as int]);
        match parse_chars(keys, &spec) {
            Err(e) => {
                proof {
                    lemma_expand_err_prefix(keys@, p@, ls, command, i as int + 1);
                }
                return Err(TemplateError::Parse(e));
            },
            Ok(ch) => {
                let a = command.action(index);
                let ghost before = out@;
                out.push((ch, a));
                assert(pairs_view(out@) =~= pairs_view(before).push(
                    (ch, indexed_action(command, index)),
                ));
            },
        }
        i += 1;
    }
    assert(ls.take(labels@.len() as int) =~= ls);
    Ok(out)
}

} // verus!
