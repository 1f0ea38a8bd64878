//! Chord parsing: `"M-S-j"` becomes a set of modifiers plus one base key.
use vstd::prelude::*;
use vstd::string::*;

verus! {

/// A modifier key held together with a base key.
#[derive(Clone, Copy, Debug, PartialEq, Eq, Hash, Structural)]
pub enum Modifier {
    Super,
    Shift,
    Alt,
    Control,
}

/// The bit of a modifier in a chord's modifier mask (the X11 mask values).
pub open spec fn modifier_bit(m: Modifier) -> u8 {
    match m {
        Modifier::Shift => 1u8,
        Modifier::Control => 4u8,
        Modifier::Alt => 8u8,
        Modifier::Super => 64u8,
    }
}

/// The one-letter token that names a modifier in a chord spec.
pub open spec fn modifier_token(m: Modifier) -> Seq<char> {
    match m {
        Modifier::Super => seq!['M'],
        Modifier::Shift => seq!['S'],
        Modifier::Alt => seq!['A'],
        Modifier::Control => seq!['C'],
    }
}

/// The modifier that a token names, if any.
pub open spec fn modifier_of(t: Seq<char>) -> Option<Modifier> {
    if t.len() != 1 {
        None
    } else if t[0] == 'M' {
        Some(Modifier::Super)
    } else if t[0] == 'S' {
        Some(Modifier::Shift)
    } else if t[0] == 'A' {
        Some(Modifier::Alt)
    } else if t[0] == 'C' {
        Some(Modifier::Control)
    } else {
        None
    }
}

/// The mask bits that no modifier uses.
pub const UNUSED_MASK_BITS: u8 = 0xB2;

/// A mask made of modifier bits only.
pub open spec fn valid_mask(m: u8) -> bool {
    m & UNUSED_MASK_BITS == 0
}

pub open spec fn mask_has(m: u8, md: Modifier) -> bool {
    m & modifier_bit(md) != 0
}

/// An identifier of a base key: its position in the key table it was resolved with.
#[derive(Clone, Copy, Debug, PartialEq, Eq, Hash, PartialOrd, Ord, Structural)]
pub struct KeySymbol {
    pub index: usize,
}

/// A normalized chord: a modifier mask and a base key.
#[derive(Clone, Copy, Debug, PartialEq, Eq, Hash, PartialOrd, Ord, Structural)]
pub struct Chord {
    pub modifiers: u8,
    pub key: KeySymbol,
}

#[derive(Clone, Debug, PartialEq, Eq)]
pub enum ParseError {
    EmptySpec,
    UnknownSymbol(String),
    DuplicateModifier(Modifier),
}

pub enum ParseErrorView {
    EmptySpec,
    UnknownSymbol(Seq<char>),
    DuplicateModifier(Modifier),
}

impl View for ParseError {
    type V = ParseErrorView;

    open spec fn view(&self) -> ParseErrorView {
        match self {
            ParseError::EmptySpec => ParseErrorView::EmptySpec,
            ParseError::UnknownSymbol(s) => ParseErrorView::UnknownSymbol(s@),
            ParseError::DuplicateModifier(m) => ParseErrorView::DuplicateModifier(*m),
        }
    }
}

pub open spec fn parse_view(r: Result<Chord, ParseError>) -> Result<Chord, ParseErrorView> {
    match r {
        Ok(c) => Ok(c),
        Err(e) => Err(e@),
    }
}

/// `s` split on every `-`, as `str::split` does: always at least one token.
pub open spec fn split_dash(s: Seq<char>) -> Seq<Seq<char>>
    decreases s.len(),
{
    if s.len() == 0 {
        seq![Seq::<char>::empty()]
    } else {
        let r = split_dash(s.drop_last());
        if s.last() == '-' {
            r.push(Seq::<char>::empty())
        } else {
            r.update(r.len() - 1, r.last().push(s.last()))
        }
    }
}

/// The modifier mask named by the tokens, read left to right; the first unknown
/// or repeated modifier token is the error.
pub open spec fn fold_mods(t: Seq<Seq<char>>) -> Result<u8, ParseErrorView>
    decreases t.len(),
{
    if t.len() == 0 {
        Ok(0u8)
    } else {
        match fold_mods(t.drop_last()) {
            Err(e) => Err(e),
            Ok(m) => match modifier_of(t.last()) {
                None => Err(ParseErrorView::UnknownSymbol(t.last())),
                Some(md) => if mask_has(m, md) {
                    Err(ParseErrorView::DuplicateModifier(md))
                } else {
                    Ok(m | modifier_bit(md))
                },
            },
        }
    }
}

/// Every token names a modifier, and no token occurs twice.
pub open spec fn mods_valid(t: Seq<Seq<char>>) -> bool {
    &&& forall|i: int| 0 <= i < t.len() ==> modifier_of(#[trigger] t[i]) is Some
    &&& t.no_duplicates()
}

/// The key symbol that a name resolves to in a table of key names.
pub open spec fn key_of(names: Seq<Seq<char>>, t: Seq<char>) -> Option<KeySymbol> {
    if exists|i: int| 0 <= i < names.len() && names[i] == t {
        Some(KeySymbol { index: (choose|i: int| 0 <= i < names.len() && names[i] == t) as usize })
    } else {
        None
    }
}

/// What parsing the chord spec `s` against the key names gives.
pub open spec fn parse_spec(names: Seq<Seq<char>>, s: Seq<char>) -> Result<Chord, ParseErrorView> {
    if s.len() == 0 {
        Err(ParseErrorView::EmptySpec)
    } else {
        let toks = split_dash(s);
        match fold_mods(toks.drop_last()) {
            Err(e) => Err(e),
            Ok(m) => match key_of(names, toks.last()) {
                None => Err(ParseErrorView::UnknownSymbol(toks.last())),
                Some(k) => Ok(Chord { modifiers: m, key: k }),
            },
        }
    }
}

/// The key names of [`KeyTable::standard`].
pub open spec fn standard_key_names() -> Seq<Seq<char>> {
    seq![
        "a"@,
        "b"@,
        "c"@,
        "d"@,
        "e"@,
        "f"@,
        "g"@,
        "h"@,
        "i"@,
        "j"@,
        "k"@,
        "l"@,
        "m"@,
        "n"@,
        "o"@,
        "p"@,
        "q"@,
        "r"@,
        "s"@,
        "t"@,
        "u"@,
        "v"@,
        "w"@,
        "x"@,
        "y"@,
        "z"@,
        "0"@,
        "1"@,
        "2"@,
        "3"@,
        "4"@,
        "5"@,
        "6"@,
        "7"@,
        "8"@,
        "9"@,
        "Tab"@,
        "grave"@,
        "Return"@,
        "Escape"@,
        "space"@,
        "BackSpace"@,
        "Delete"@,
        "Up"@,
        "Down"@,
        "Left"@,
        "Right"@,
        "semicolon"@,
        "comma"@,
        "period"@,
        "slash"@,
        "minus"@,
        "equal"@,
    ]
}

/// The names of the base keys that chord specs may use; a key symbol is a
/// position in it.
pub struct KeyTable {
    names: Vec<Vec<char>>,
}

impl View for KeyTable {
    type V = Seq<Seq<char>>;

    closed spec fn view(&self) -> Seq<Seq<char>> {
        self.names@.map_values(|v: Vec<char>| v@)
    }
}

/// Relies on `String`'s `FromIterator<&char>` (through `Iterator::collect`): the
/// string holds the chars in order.
#[verifier::external_body]
fn string_from_chars(v: &Vec<char>) -> (r: String)
    ensures
        r@ == v@,
{
    v.iter().collect()
}

/// The characters of a string slice.
pub fn chars_of(s: &str) -> (r: Vec<char>)
    ensures
        r@ == s@,
{
    let n = s.unicode_len();
    let mut r: Vec<char> = Vec::new();
    let mut i: usize = 0;
    while i < n
        invariant
            n == s@.len(),
            i <= n,
            r@ == s@.take(i as int),
        decreases n - i,
    {
        let c = s.get_char(i);
        r.push(c);
        i += 1;
        assert(r@ =~= s@.take(i as int));
    }
    assert(r@ =~= s@);
    r
}

/// Whether `a` equals `s[lo..hi]`.
fn range_eq(a: &Vec<char>, s: &Vec<char>, lo: usize, hi: usize) -> (r: bool)
    requires
        lo <= hi <= s@.len(),
    ensures
        r == (a@ == s@.subrange(lo as int, hi as int)),
{
    if a.len() != hi - lo {
        return false;
    }
    let mut j: usize = 0;
    while j < a.len()
        invariant
            a@.len() == hi - lo,
            lo <= hi <= s@.len(),
            j <= a@.len(),
            forall|k: int| 0 <= k < j ==> a@[k] == s@[lo + k],
        decreases a@.len() - j,
    {
        if a[j] != s[lo + j] {
            assert(a@[j as int] != s@.subrange(lo as int, hi as int)[j as int]);
            return false;
        }
        j += 1;
    }
    assert(a@ =~= s@.subrange(lo as int, hi as int));
    true
}

/// `s[lo..hi]` as a string.
fn range_string(s: &Vec<char>, lo: usize, hi: usize) -> (r: String)
    requires
        lo <= hi <= s@.len(),
    ensures
        r@ == s@.subrange(lo as int, hi as int),
{
    let mut v: Vec<char> = Vec::new();
    let mut j: usize = lo;
    while j < hi
        invariant
            lo <= j <= hi <= s@.len(),
            v@ == s@.subrange(lo as int, j as int),
        decreases hi - j,
    {
        v.push(s[j]);
        j += 1;
        assert(v@ =~= s@.subrange(lo as int, j as int));
    }
    string_from_chars(&v)
}

impl KeyTable {
    /// A table with no key names.
    pub fn new() -> (r: KeyTable)
        ensures
            r@ == Seq::<Seq<char>>::empty(),
    {
        let r = KeyTable { names: Vec::new() };
        assert(r@ =~= Seq::<Seq<char>>::empty());
        r
    }

    pub fn len(&self) -> (r: usize)
        ensures
            r == self@.len(),
    {
        self.names.len()
    }

    /// The name of key symbol `k`, if it is one of this table.
    pub fn name(&self, k: KeySymbol) -> (r: Option<&Vec<char>>)
        ensures
            r is Some <==> k.index < self@.len(),
            r is Some ==> r->Some_0@ == self@[k.index as int],
    {
        if k.index < self.names.len() {
            Some(&self.names[k.index])
        } else {
            None
        }
    }

    /// The symbol that `s[lo..hi]` names, if any.
    fn find_range(&self, s: &Vec<char>, lo: usize, hi: usize) -> (r: Option<KeySymbol>)
        requires
            self@.no_duplicates(),
            lo <= hi <= s@.len(),
        ensures
            r == key_of(self@, s@.subrange(lo as int, hi as int)),
    {
        let ghost t = s@.subrange(lo as int, hi as int);
        let mut j: usize = 0;
        while j < self.names.len()
            invariant
                self@.no_duplicates(),
                lo <= hi <= s@.len(),
                t == s@.subrange(lo as int, hi as int),
                j <= self@.len(),
                self@.len() == self.names@.len(),
                forall|k: int| 0 <= k < j ==> self@[k] != t,
            decreases self.names@.len() - j,
        {
            assert(self@[j as int] == self.names@[j as int]@);
            if range_eq(&self.names[j], s, lo, hi) {
                proof {
                    let c = choose|i: int| 0 <= i < self@.len() && self@[i] == t;
                    assert(self@[c] == self@[j as int]);
                }
                return Some(KeySymbol { index: j });
            }
            j += 1;
        }
        None
    }

    /// The symbol that `name` resolves to, if the table holds it.
    pub fn resolve(&self, name: &str) -> (r: Option<KeySymbol>)
        requires
            self@.no_duplicates(),
        ensures
            r == key_of(self@, name@),
    {
        let s = chars_of(name);
        assert(s@.subrange(0, s@.len() as int) =~= s@);
        self.find_range(&s, 0, s.len())
    }

    /// Adds a key name; a name already present is not added again.
    pub fn add(&mut self, name: &str)
        requires
            old(self)@.no_duplicates(),
        ensures
            final(self)@.no_duplicates(),
            old(self)@.contains(name@) ==> final(self)@ == old(self)@,
            !old(self)@.contains(name@) ==> final(self)@ == old(self)@.push(name@),
    {
        let s = chars_of(name);
        assert(s@.subrange(0, s@.len() as int) =~= s@);
        match self.find_range(&s, 0, s.len()) {
            Some(k) => {
                assert(self@.contains(name@));
            },
            None => {
                let ghost before = self@;
                assert(!before.contains(name@));
                self.names.push(s);
                assert(self@ =~= before.push(name@));
            },
        }
    }

    /// The key names of a keyboard: letters, digits and the named keys that
    /// chord specs commonly use.
    pub fn standard() -> (r: KeyTable)
        ensures
            r@.no_duplicates(),
            forall|x: Seq<char>| r@.contains(x) <==> standard_key_names().contains(x),
    {
        let names: Vec<&str> = vec![
            "a",
            "b",
            "c",
            "d",
            "e",
            "f",
            "g",
            "h",
            "i",
            "j",
            "k",
            "l",
            "m",
            "n",
            "o",
            "p",
            "q",
            "r",
            "s",
            "t",
            "u",
            "v",
            "w",
            "x",
            "y",
            "z",
            "0",
            "1",
            "2",
            "3",
            "4",
            "5",
            "6",
            "7",
            "8",
            "9",
            "Tab",
            "grave",
            "Return",
            "Escape",
            "space",
            "BackSpace",
            "Delete",
            "Up",
            "Down",
            "Left",
            "Right",
            "semicolon",
            "comma",
            "period",
            "slash",
            "minus",
            "equal",
        ];
        let ghost nv = names@.map_values(|n: &str| n@);
        assert(nv =~= standard_key_names());
        let mut t = KeyTable::new();
        let mut i: usize = 0;
        while i < names.len()
            invariant
                t@.no_duplicates(),
                i <= names@.len(),
                nv == names@.map_values(|n: &str| n@),
                forall|j: int| 0 <= j < i ==> t@.contains(#[trigger] nv[j]),
                forall|k: int| 0 <= k < t@.len() ==> nv.take(i as int).contains(#[trigger] t@[k]),
            decreases names@.len() - i,
        {
            let ghost before = t@;
            t.add(names[i]);
            proof {
                assert(names@[i as int]@ == nv[i as int]);
                assert forall|j: int| 0 <= j < i + 1 implies t@.contains(#[trigger] nv[j]) by {
                    if j < i {
                        let k = choose|k: int| 0 <= k < before.len() && before[k] == nv[j];
                        assert(t@[k] == nv[j]);
                    } else if before.contains(nv[j]) {
                    } else {
                        assert(t@[before.len() as int] == nv[j]);
                    }
                }
                assert forall|k: int| 0 <= k < t@.len() implies nv.take(i + 1).contains(
                    #[trigger] t@[k],
                ) by {
                    if k < before.len() {
                        assert(t@[k] == before[k]);
                        let j = choose|j: int| 0 <= j < i && nv.take(i as int)[j] == before[k];
                        assert(nv.take(i + 1)[j] == before[k]);
                    } else {
                        assert(nv.take(i + 1)[i as int] == nv[i as int]);
                    }
                }
            }
            i += 1;
        }
        assert(nv.take(names@.len() as int) =~= nv);
        assert forall|x: Seq<char>| t@.contains(x) <==> standard_key_names().contains(x) by {
            if t@.contains(x) {
                let k = choose|k: int| 0 <= k < t@.len() && t@[k] == x;
                assert(nv.contains(t@[k]));
            }
            if standard_key_names().contains(x) {
                let j = choose|j: int| 0 <= j < nv.len() && nv[j] == x;
                assert(t@.contains(nv[j]));
            }
        }
        t
    }
}

fn modifier_in(s: &Vec<char>, lo: usize, hi: usize) -> (r: Option<Modifier>)
    requires
        lo <= hi <= s@.len(),
    ensures
        r == modifier_of(s@.subrange(lo as int, hi as int)),
{
    if hi - lo != 1 {
        return None;
    }
    assert(s@.subrange(lo as int, hi as int)[0] == s@[lo as int]);
    let c = s[lo];
    if c == 'M' {
        Some(Modifier::Super)
    } else if c == 'S' {
        Some(Modifier::Shift)
    } else if c == 'A' {
        Some(Modifier::Alt)
    } else if c == 'C' {
        Some(Modifier::Control)
    } else {
        None
    }
}

fn bit_of(m: Modifier) -> (r: u8)
    ensures
        r == modifier_bit(m),
{
    match m {
        Modifier::Shift => 1,
        Modifier::Control => 4,
        Modifier::Alt => 8,
        Modifier::Super => 64,
    }
}

proof fn lemma_split_len(s: Seq<char>)
    ensures
        split_dash(s).len() >= 1,
    decreases s.len(),
{
    if s.len() > 0 {
        lemma_split_len(s.drop_last());
    }
}

/// Token ranges of `s`, one for each token of `split_dash(s@)`.
fn split_ranges(s: &Vec<char>) -> (r: Vec<(usize, usize)>)
    ensures
        r@.len() == split_dash(s@).len(),
        forall|k: int|
            #![trigger r@[k]]
            0 <= k < r@.len() ==> r@[k].0 <= r@[k].1 <= s@.len() && s@.subrange(
                r@[k].0 as int,
                r@[k].1 as int,
            ) == split_dash(s@)[k],
{
    let mut r: Vec<(usize, usize)> = Vec::new();
    let mut start: usize = 0;
    let mut i: usize = 0;
    assert(s@.take(0) =~= Seq::<char>::empty());
    assert(s@.subrange(0, 0) =~= Seq::<char>::empty());
    while i < s.len()
        invariant
            start <= i <= s@.len(),
            split_dash(s@.take(i as int)).len() == r@.len() + 1,
            forall|k: int|
                #![trigger r@[k]]
                0 <= k < r@.len() ==> r@[k].0 <= r@[k].1 <= i && s@.subrange(
                    r@[k].0 as int,
                    r@[k].1 as int,
                ) == split_dash(s@.take(i as int))[k],
            split_dash(s@.take(i as int)).last() == s@.subrange(start as int, i as int),
        decreases s@.len() - i,
    {
        let ghost prev = split_dash(s@.take(i as int));
        let ghost x = s@.take(i as int + 1);
        let ghost old_r = r@;
        let ghost old_start = start;
        assert(x.drop_last() =~= s@.take(i as int));
        assert(x.last() == s@[i as int]);
        if s[i] == '-' {
            r.push((start, i));
            start = i + 1;
            proof {
                assert(split_dash(x) == prev.push(Seq::<char>::empty()));
                assert(s@.subrange(start as int, i as int + 1) =~= Seq::<char>::empty());
                assert forall|k: int| #![trigger r@[k]] 0 <= k < r@.len() implies r@[k].0 <= r@[k].1 <= i + 1
                    && s@.subrange(r@[k].0 as int, r@[k].1 as int) == split_dash(x)[k] by {
                    if k < old_r.len() {
                        assert(r@[k] == old_r[k]);
                        assert(split_dash(x)[k] == prev[k]);
                    } else {
                        assert(r@[k] == (old_start, i));
                        assert(split_dash(x)[k] == prev[prev.len() - 1]);
                    }
                }
            }
        } else {
            proof {
                assert(split_dash(x) == prev.update(prev.len() - 1, prev.last().push(s@[i as int])));
                assert(s@.subrange(start as int, i as int + 1) =~= s@.subrange(
                    start as int,
                    i as int,
                ).push(s@[i as int]));
                assert forall|k: int| #![trigger r@[k]] 0 <= k < r@.len() implies r@[k].0 <= r@[k].1 <= i + 1
                    && s@.subrange(r@[k].0 as int, r@[k].1 as int) == split_dash(x)[k] by {
                    assert(split_dash(x)[k] == prev[k]);
                }
            }
        }
        i += 1;
        assert(s@.take(i as int) == x);
    }
    assert(s@.take(s@.len() as int) =~= s@);
    let ghost old_r = r@;
    let ghost full = split_dash(s@);
    r.push((start, s.len()));
    assert forall|k: int| #![trigger r@[k]] 0 <= k < r@.len() implies r@[k].0 <= r@[k].1 <= s@.len()
        && s@.subrange(r@[k].0 as int, r@[k].1 as int) == split_dash(s@)[k] by {
        if k < old_r.len() {
            assert(r@[k] == old_r[k]);
        } else {
            assert(r@[k] == (start, s@.len() as usize));
        }
    }
    r
}

proof fn lemma_fold_err_prefix(t: Seq<Seq<char>>, k: int)
    requires
        0 <= k <= t.len(),
        fold_mods(t.take(k)) is Err,
    ensures
        fold_mods(t) == fold_mods(t.take(k)),
    decreases t.len(),
{
    if k == t.len() {
        assert(t.take(k) =~= t);
    } else {
        assert(t.drop_last().take(k) =~= t.take(k));
        lemma_fold_err_prefix(t.drop_last(), k);
    }
}

/// Parses a chord spec given as characters.
pub fn parse_chars(keys: &KeyTable, s: &Vec<char>) -> (r: Result<Chord, ParseError>)
    requires
        keys@.no_duplicates(),
    ensures
        parse_view(r) == parse_spec(keys@, s@),
{
    if s.len() == 0 {
        return Err(ParseError::EmptySpec);
    }
    let ranges = split_ranges(s);
    proof {
        lemma_split_len(s@);
    }
    let ghost toks = split_dash(s@);
    let ghost mods = toks.drop_last();
    let nm = ranges.len() - 1;
    let mut mask: u8 = 0;
    let mut k: usize = 0;
    assert(mods.take(0) =~= Seq::<Seq<char>>::empty());
    while k < nm
        invariant
            keys@.no_duplicates(),
            s@.len() > 0,
            toks == split_dash(s@),
            mods == toks.drop_last(),
            nm + 1 == ranges@.len() == toks.len(),
            k <= nm,
            forall|j: int|
                #![trigger ranges@[j]]
                0 <= j < ranges@.len() ==> ranges@[j].0 <= ranges@[j].1 <= s@.len()
                    && s@.subrange(ranges@[j].0 as int, ranges@[j].1 as int) == split_dash(s@)[j],
            fold_mods(mods.take(k as int)) == Ok::<u8, ParseErrorView>(mask),
        decreases nm - k,
    {
        let (lo, hi) = ranges[k];
        let ghost tk = toks[k as int];
        assert(s@.subrange(lo as int, hi as int) == split_dash(s@)[k as int]);
        assert(mods.take(k as int + 1).drop_last() =~= mods.take(k as int));
        assert(mods.take(k as int + 1).last() == tk);
        match modifier_in(s, lo, hi) {
            None => {
                let name = range_string(s, lo, hi);
                proof {
                    lemma_fold_err_prefix(mods, k as int + 1);
                }
                return Err(ParseError::UnknownSymbol(name));
            },
            Some(md) => {
                let b = bit_of(md);
                if mask & b != 0 {
                    proof {
                        lemma_fold_err_prefix(mods, k as int + 1);
                    }
                    return Err(ParseError::DuplicateModifier(md));
                }
                mask = mask | b;
            },
        }
        k += 1;
    }
    assert(mods.take(nm as int) =~= mods);
    let (lo, hi) = ranges[nm];
    match keys.find_range(s, lo, hi) {
        None => Err(ParseError::UnknownSymbol(range_string(s, lo, hi))),
        Some(key) => Ok(Chord { modifiers: mask, key }),
    }
}

/// Parses a chord spec such as `"M-S-j"`: `-`-separated modifier tokens
/// (`M` Super, `S` Shift, `A` Alt, `C` Control) followed by a key name of `keys`.
pub fn parse_chord(keys: &KeyTable, spec: &str) -> (r: Result<Chord, ParseError>)
    requires
        keys@.no_duplicates(),
    ensures
        parse_view(r) == parse_spec(keys@, spec@),
{
    let s = chars_of(spec);
    parse_chars(keys, &s)
}

proof fn lemma_mask_step(m: u8, b: u8, c: u8)
    by (bit_vector)
    requires
        b == 1u8 || b == 4u8 || b == 8u8 || b == 64u8,
        c == 1u8 || c == 4u8 || c == 8u8 || c == 64u8,
        m & 0xB2u8 == 0u8,
    ensures
        (m | b) & 0xB2u8 == 0u8,
        ((m | b) & c != 0u8) == ((m & c != 0u8) || b == c),
{
}

proof fn lemma_mask_zero(c: u8)
    by (bit_vector)
    ensures
        0u8 & c == 0u8,
{
}

proof fn lemma_mask_eq(a: u8, b: u8)
    by (bit_vector)
    requires
        a & 0xB2u8 == 0u8,
        b & 0xB2u8 == 0u8,
        (a & 1u8 != 0u8) == (b & 1u8 != 0u8),
        (a & 4u8 != 0u8) == (b & 4u8 != 0u8),
        (a & 8u8 != 0u8) == (b & 8u8 != 0u8),
        (a & 64u8 != 0u8) == (b & 64u8 != 0u8),
    ensures
        a == b,
{
}

proof fn lemma_modifier_token(t: Seq<char>, md: Modifier)
    ensures
        modifier_of(modifier_token(md)) == Some(md),
        modifier_of(t) == Some(md) ==> t =~= modifier_token(md),
{
}

/// A list of modifier tokens folds to a mask exactly when every token names a
/// modifier and none repeats; the mask then holds the modifiers named.
pub proof fn lemma_fold_mods(t: Seq<Seq<char>>)
    ensures
        fold_mods(t) is Ok <==> mods_valid(t),
        fold_mods(t) is Ok ==> valid_mask(fold_mods(t)->Ok_0),
        fold_mods(t) is Ok ==> forall|md: Modifier|
            mask_has(fold_mods(t)->Ok_0, md) <==> t.contains(modifier_token(md)),
    decreases t.len(),
{
    if t.len() == 0 {
        assert forall|md: Modifier| !mask_has(0u8, md) by {
            lemma_mask_zero(modifier_bit(md));
        }
        lemma_mask_zero(0xB2u8);
    } else {
        let p = t.drop_last();
        let x = t.last();
        let n = t.len() - 1;
        lemma_fold_mods(p);
        assert(t =~= p.push(x));
        assert forall|y: Seq<char>| t.contains(y) <==> (p.contains(y) || y == x) by {
            if t.contains(y) {
                let i = choose|i: int| 0 <= i < t.len() && t[i] == y;
                if i < n {
                    assert(p[i] == y);
                }
            }
            if p.contains(y) {
                let i = choose|i: int| 0 <= i < p.len() && p[i] == y;
                assert(t[i] == y);
            }
            if y == x {
                assert(t[n] == y);
            }
        }
        if mods_valid(t) {
            assert(mods_valid(p)) by {
                assert forall|i: int| 0 <= i < p.len() implies modifier_of(#[trigger] p[i]) is Some by {
                    assert(t[i] == p[i]);
                }
                assert forall|i: int, j: int|
                    0 <= i < p.len() && 0 <= j < p.len() && i != j implies p[i] != p[j] by {
                    assert(t[i] == p[i] && t[j] == p[j]);
                }
            }
            assert(modifier_of(t[n]) is Some);
            assert(!p.contains(x)) by {
                if p.contains(x) {
                    let i = choose|i: int| 0 <= i < p.len() && p[i] == x;
                    assert(t[i] == t[n]);
                }
            }
        }
        match fold_mods(p) {
            Err(_) => {
            },
            Ok(m) => {
                match modifier_of(x) {
                    None => {
                        assert(modifier_of(t[n]) is None);
                    },
                    Some(md) => {
                        lemma_modifier_token(x, md);
                        if mask_has(m, md) {
                            assert(p.contains(x));
                        } else {
                            assert(!p.contains(x));
                            assert(mods_valid(t)) by {
                                assert forall|i: int| 0 <= i < t.len() implies modifier_of(
                                    #[trigger] t[i],
                                ) is Some by {
                                    if i < n {
                                        assert(t[i] == p[i]);
                                    }
                                }
                                assert forall|i: int, j: int|
                                    0 <= i < t.len() && 0 <= j < t.len() && i != j implies t[i]
                                    != t[j] by {
                                    if i < n && j < n {
                                        assert(t[i] == p[i] && t[j] == p[j]);
                                    } else if i < n {
                                        assert(t[i] == p[i]);
                                    } else {
                                        assert(t[j] == p[j]);
                                    }
                                }
                            }
                            assert forall|md2: Modifier|
                                mask_has(m | modifier_bit(md), md2) <==> t.contains(
                                    modifier_token(md2),
                                ) by {
                                let y = modifier_token(md2);
                                lemma_mask_step(m, modifier_bit(md), modifier_bit(md2));
                                lemma_modifier_token(x, md2);
                                assert(t.contains(y) <==> (p.contains(y) || y == x));
                                assert(mask_has(m, md2) <==> p.contains(y));
                                if y == x {
                                    assert(modifier_of(x) == Some(md2));
                                }
                                if md2 == md {
                                    assert(y == x);
                                } else {
                                    assert(modifier_bit(md) != modifier_bit(md2));
                                }
                            }
                            lemma_mask_step(m, modifier_bit(md), 1u8);
                        }
                    },
                }
            },
        }
    }
}

proof fn lemma_fold_err_duplicate(t: Seq<Seq<char>>)
    requires
        forall|i: int| 0 <= i < t.len() ==> modifier_of(#[trigger] t[i]) is Some,
    ensures
        fold_mods(t) is Err ==> fold_mods(t)->Err_0 is DuplicateModifier,
    decreases t.len(),
{
    if t.len() > 0 {
        let p = t.drop_last();
        assert forall|i: int| 0 <= i < p.len() implies modifier_of(#[trigger] p[i]) is Some by {
            assert(t[i] == p[i]);
        }
        lemma_fold_err_duplicate(p);
        assert(modifier_of(t[t.len() - 1]) is Some);
    }
}

/// Reordering the modifier tokens of a chord spec that parses leaves the
/// parsed chord unchanged.
pub proof fn lemma_parse_reorder(names: Seq<Seq<char>>, s1: Seq<char>, s2: Seq<char>)
    requires
        s2.len() > 0,
        split_dash(s2).last() == split_dash(s1).last(),
        split_dash(s2).drop_last().to_multiset() =~= split_dash(s1).drop_last().to_multiset(),
        parse_spec(names, s1) is Ok,
    ensures
        parse_spec(names, s2) == parse_spec(names, s1),
{
    let t1 = split_dash(s1).drop_last();
    let t2 = split_dash(s2).drop_last();
    lemma_fold_mods(t1);
    lemma_fold_mods(t2);
    t1.to_multiset_ensures();
    t2.to_multiset_ensures();
    assert forall|y: Seq<char>| t2.contains(y) <==> t1.contains(y) by {
        assert(t2.to_multiset().count(y) == t1.to_multiset().count(y));
    }
    assert forall|i: int| 0 <= i < t2.len() implies modifier_of(#[trigger] t2[i]) is Some by {
        assert(t2.contains(t2[i]));
        let j = choose|j: int| 0 <= j < t1.len() && t1[j] == t2[i];
    }
    t1.lemma_multiset_has_no_duplicates();
    assert forall|x: Seq<char>| t2.to_multiset().contains(x) implies t2.to_multiset().count(x)
        == 1 by {
        assert(t1.to_multiset().contains(x));
    }
    t2.lemma_multiset_has_no_duplicates_conv();
    assert(mods_valid(t2));
    let m1 = fold_mods(t1)->Ok_0;
    let m2 = fold_mods(t2)->Ok_0;
    assert(mask_has(m1, Modifier::Shift) == mask_has(m2, Modifier::Shift));
    assert(mask_has(m1, Modifier::Control) == mask_has(m2, Modifier::Control));
    assert(mask_has(m1, Modifier::Alt) == mask_has(m2, Modifier::Alt));
    assert(mask_has(m1, Modifier::Super) == mask_has(m2, Modifier::Super));
    lemma_mask_eq(m1, m2);
}

/// A chord spec whose modifier tokens all name modifiers, one of them twice,
/// fails with `DuplicateModifier`.
pub proof fn lemma_parse_repeated_modifier(names: Seq<Seq<char>>, s: Seq<char>, i: int, j: int)
    requires
        s.len() > 0,
        0 <= i < j < split_dash(s).len() - 1,
        split_dash(s)[i] == split_dash(s)[j],
        forall|k: int|
            0 <= k < split_dash(s).len() - 1 ==> modifier_of(#[trigger] split_dash(s)[k]) is Some,
    ensures
        parse_spec(names, s) is Err,
        parse_spec(names, s)->Err_0 is DuplicateModifier,
{
    let t = split_dash(s).drop_last();
    assert forall|k: int| 0 <= k < t.len() implies modifier_of(#[trigger] t[k]) is Some by {
        assert(t[k] == split_dash(s)[k]);
    }
    assert(t[i] == t[j]);
    lemma_fold_mods(t);
    lemma_fold_err_duplicate(t);
}

} // verus!
