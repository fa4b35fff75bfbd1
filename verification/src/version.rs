//! Version strings: splitting them into components and separators, and the
//! ordering of versions by their components.

use vstd::prelude::*;

use crate::text::{
    Order, all_digits, chars_of, decimal, digits_value, int_order, lemma_lex_order_antisymmetric,
    lex_order, parse_u64_digits, reverse_order, string_of, usize_to_decimal,
};

verus! {

/// The characters that separate the components of a version: `.`, `-`, `_`,
/// `+`, `*`, `=`, `×` and space.
pub open spec fn is_separator(c: char) -> bool {
    c == '.' || c == '-' || c == '_' || c == '+' || c == '*' || c == '=' || c == '\u{d7}'
        || c == ' '
}

pub fn is_version_separator(c: char) -> (b: bool)
    ensures
        b == is_separator(c),
{
    c == '.' || c == '-' || c == '_' || c == '+' || c == '*' || c == '=' || c == '\u{d7}'
        || c == ' '
}

/// Number of leading characters of `s` that are not separators.
pub open spec fn run_len(s: Seq<char>) -> nat
    decreases s.len(),
{
    if s.len() == 0 || is_separator(s[0]) {
        0
    } else {
        1 + run_len(s.drop_first())
    }
}

pub proof fn lemma_run_len(s: Seq<char>)
    ensures
        run_len(s) <= s.len(),
        forall|i: int| 0 <= i < run_len(s) ==> !is_separator(#[trigger] s[i]),
        run_len(s) < s.len() ==> is_separator(s[run_len(s) as int]),
        s.len() > 0 && !is_separator(s[0]) ==> run_len(s) >= 1,
    decreases s.len(),
{
    if s.len() > 0 && !is_separator(s[0]) {
        let t = s.drop_first();
        lemma_run_len(t);
        assert forall|i: int| 0 <= i < run_len(s) implies !is_separator(#[trigger] s[i]) by {
            if i > 0 {
                assert(s[i] == t[i - 1]);
            }
        }
        if run_len(s) < s.len() {
            assert(s[run_len(s) as int] == t[run_len(t) as int]);
        }
    }
}

/// Length of the first piece of a nonempty `s`: one separator character, or
/// the longest run of other characters.
pub open spec fn first_piece_len(s: Seq<char>) -> nat {
    if s.len() > 0 && is_separator(s[0]) {
        1
    } else {
        run_len(s)
    }
}

/// The pieces of a version string, in order: `(true, text)` for a component,
/// `(false, text)` for a separator. Each separator character is a piece of its
/// own; a component is a maximal run of characters that are not separators.
pub open spec fn pieces_of(s: Seq<char>) -> Seq<(bool, Seq<char>)>
    decreases s.len(),
{
    if s.len() == 0 {
        seq![]
    } else {
        let n = first_piece_len(s);
        if 0 < n <= s.len() {
            seq![(!is_separator(s[0]), s.take(n as int))] + pieces_of(s.skip(n as int))
        } else {
            seq![]
        }
    }
}

pub proof fn lemma_first_piece(s: Seq<char>)
    requires
        s.len() > 0,
    ensures
        0 < first_piece_len(s) <= s.len(),
        pieces_of(s) == seq![(!is_separator(s[0]), s.take(first_piece_len(s) as int))]
            + pieces_of(s.skip(first_piece_len(s) as int)),
{
    lemma_run_len(s);
}

/// The texts of the components among `p`, in order.
pub open spec fn component_texts(p: Seq<(bool, Seq<char>)>) -> Seq<Seq<char>>
    decreases p.len(),
{
    if p.len() == 0 {
        seq![]
    } else if p.last().0 {
        component_texts(p.drop_last()).push(p.last().1)
    } else {
        component_texts(p.drop_last())
    }
}

/// The components of a version string.
pub open spec fn components_of(s: Seq<char>) -> Seq<Seq<char>> {
    component_texts(pieces_of(s))
}

/// A component made only of ASCII digits.
pub open spec fn is_numeric_text(s: Seq<char>) -> bool {
    s.len() > 0 && all_digits(s)
}

/// The value of a numeric component, when it fits in a `u64`.
pub open spec fn numeric_value(s: Seq<char>) -> Option<u64> {
    if is_numeric_text(s) && digits_value(s) <= u64::MAX {
        Some(digits_value(s) as u64)
    } else {
        None
    }
}

pub open spec fn pre_text() -> Seq<char> {
    seq!['p', 'r', 'e']
}

/// The order of two components: numbers by value, other text by code point
/// with `pre` below every other text, and any number below any other text.
pub open spec fn component_order(a: Seq<char>, b: Seq<char>) -> Order {
    if is_numeric_text(a) && is_numeric_text(b) {
        match (numeric_value(a), numeric_value(b)) {
            (Some(x), Some(y)) => int_order(x as int, y as int),
            _ => lex_order(a, b),
        }
    } else if !is_numeric_text(a) && !is_numeric_text(b) {
        if a == pre_text() && b != pre_text() {
            Order::Less
        } else if b == pre_text() && a != pre_text() {
            Order::Greater
        } else {
            lex_order(a, b)
        }
    } else if is_numeric_text(a) {
        Order::Less
    } else {
        Order::Greater
    }
}

/// Lexicographic order of two component lists under `component_order`,
/// where a list that ends is above a `pre` the other goes on with (a
/// release above its pre-release) and below anything else.
pub open spec fn components_order(a: Seq<Seq<char>>, b: Seq<Seq<char>>) -> Order
    decreases a.len(),
{
    if a.len() == 0 {
        if b.len() == 0 {
            Order::Equal
        } else if b[0] == pre_text() {
            Order::Greater
        } else {
            Order::Less
        }
    } else if b.len() == 0 {
        if a[0] == pre_text() {
            Order::Less
        } else {
            Order::Greater
        }
    } else {
        match component_order(a[0], b[0]) {
            Order::Equal => components_order(a.drop_first(), b.drop_first()),
            o => o,
        }
    }
}

/// The order of two version strings: that of their component lists.
pub open spec fn version_order(a: Seq<char>, b: Seq<char>) -> Order {
    components_order(components_of(a), components_of(b))
}


/// Swapping two components reverses their order.
pub proof fn lemma_component_order_converse(a: Seq<char>, b: Seq<char>)
    ensures
        component_order(b, a) == reverse_order(component_order(a, b)),
        component_order(a, a) == Order::Equal,
{
    lemma_lex_order_antisymmetric(a, b);
    lemma_lex_order_antisymmetric(a, a);
    assert(!is_numeric_text(pre_text())) by {
        assert(!crate::text::is_digit(pre_text()[0]));
    }
}

/// Swapping two component lists reverses their order.
pub proof fn lemma_components_order_converse(a: Seq<Seq<char>>, b: Seq<Seq<char>>)
    ensures
        components_order(b, a) == reverse_order(components_order(a, b)),
    decreases a.len(),
{
    if a.len() > 0 && b.len() > 0 {
        lemma_component_order_converse(a[0], b[0]);
        lemma_components_order_converse(a.drop_first(), b.drop_first());
    }
}

/// A component list is equal to itself.
pub proof fn lemma_components_order_reflexive(a: Seq<Seq<char>>)
    ensures
        components_order(a, a) == Order::Equal,
    decreases a.len(),
{
    if a.len() > 0 {
        lemma_component_order_converse(a[0], a[0]);
        lemma_components_order_reflexive(a.drop_first());
    }
}

/// Whether any component of the version is the text `pre`.
pub open spec fn has_pre_component(s: Seq<char>) -> bool {
    components_of(s).contains(pre_text())
}

/// The order of versions is antisymmetric and reflexive: swapping two
/// versions reverses their order, and a version equals itself.
pub proof fn law_version_order_converse(a: Seq<char>, b: Seq<char>)
    ensures
        version_order(b, a) == reverse_order(version_order(a, b)),
        version_order(a, a) == Order::Equal,
{
    lemma_components_order_converse(components_of(a), components_of(b));
    lemma_components_order_reflexive(components_of(a));
}

/// A component that is no number, or a number that fits in a `u64`.
pub open spec fn fits_u64(s: Seq<char>) -> bool {
    is_numeric_text(s) ==> digits_value(s) <= u64::MAX
}

/// Every component fits: no number past `u64::MAX`.
pub open spec fn all_fit(cs: Seq<Seq<char>>) -> bool {
    forall|i: int| 0 <= i < cs.len() ==> fits_u64(#[trigger] cs[i])
}

/// Every component fits and none is `pre`.
pub open spec fn plain_components(cs: Seq<Seq<char>>) -> bool {
    all_fit(cs) && !cs.contains(pre_text())
}

/// Components of equal order compare alike with every other one.
proof fn lemma_component_equal_congruent(a: Seq<char>, b: Seq<char>, c: Seq<char>)
    requires
        fits_u64(a),
        fits_u64(b),
        fits_u64(c),
        component_order(a, b) == Order::Equal,
    ensures
        component_order(a, c) == component_order(b, c),
        component_order(c, a) == component_order(c, b),
{
    lemma_lex_order_antisymmetric(a, b);
    lemma_component_order_converse(a, b);
}

/// Component order is transitive among components that fit.
proof fn lemma_component_less_transitive(a: Seq<char>, b: Seq<char>, c: Seq<char>)
    requires
        fits_u64(a),
        fits_u64(b),
        fits_u64(c),
        component_order(a, b) == Order::Less,
        component_order(b, c) == Order::Less,
    ensures
        component_order(a, c) == Order::Less,
{
    if lex_order(a, b) == Order::Less && lex_order(b, c) == Order::Less {
        crate::text::lemma_lex_order_transitive(a, b, c);
    }
}

proof fn lemma_all_fit_tail(a: Seq<Seq<char>>)
    requires
        all_fit(a),
        a.len() > 0,
    ensures
        all_fit(a.drop_first()),
        fits_u64(a[0]),
{
    assert forall|i: int| 0 <= i < a.drop_first().len() implies fits_u64(#[trigger] a.drop_first()[i]) by {
        assert(a.drop_first()[i] == a[i + 1]);
    }
}

/// Component lists of equal order compare alike with every other one.
proof fn lemma_components_equal_congruent(a: Seq<Seq<char>>, b: Seq<Seq<char>>, c: Seq<Seq<char>>)
    requires
        all_fit(a),
        all_fit(b),
        all_fit(c),
        components_order(a, b) == Order::Equal,
    ensures
        components_order(a, c) == components_order(b, c),
        components_order(c, a) == components_order(c, b),
    decreases a.len(),
{
    if a.len() > 0 {
        lemma_all_fit_tail(a);
        lemma_all_fit_tail(b);
        assert(!is_numeric_text(pre_text())) by {
            assert(!crate::text::is_digit(pre_text()[0]));
        }
        lemma_lex_order_antisymmetric(a[0], b[0]);
        assert(a[0] == pre_text() <==> b[0] == pre_text());
        if c.len() > 0 {
            lemma_all_fit_tail(c);
            lemma_component_equal_congruent(a[0], b[0], c[0]);
            lemma_components_equal_congruent(a.drop_first(), b.drop_first(), c.drop_first());
        }
    }
}

proof fn lemma_plain_tail(a: Seq<Seq<char>>)
    requires
        plain_components(a),
        a.len() > 0,
    ensures
        plain_components(a.drop_first()),
        a[0] != pre_text(),
{
    lemma_all_fit_tail(a);
    if a.drop_first().contains(pre_text()) {
        let k = choose|k: int| 0 <= k < a.drop_first().len() && a.drop_first()[k] == pre_text();
        assert(a[k + 1] == pre_text());
    }
    assert(a[0] == a[0]);
    if a[0] == pre_text() {
        assert(a.contains(pre_text()));
    }
}

/// Component list order is transitive among lists whose components fit and
/// are no `pre`.
proof fn lemma_components_less_transitive(a: Seq<Seq<char>>, b: Seq<Seq<char>>, c: Seq<Seq<char>>)
    requires
        plain_components(a),
        plain_components(b),
        plain_components(c),
        components_order(a, b) == Order::Less,
        components_order(b, c) == Order::Less,
    ensures
        components_order(a, c) == Order::Less,
    decreases a.len(),
{
    if a.len() > 0 {
        lemma_plain_tail(a);
        if b.len() > 0 {
            lemma_plain_tail(b);
        }
        if c.len() > 0 {
            lemma_plain_tail(c);
        }
        let x = component_order(a[0], b[0]);
        let y = component_order(b[0], c[0]);
        if x == Order::Less && y == Order::Less {
            lemma_component_less_transitive(a[0], b[0], c[0]);
        } else if x == Order::Less {
            lemma_component_equal_congruent(b[0], c[0], a[0]);
        } else if y == Order::Less {
            lemma_component_equal_congruent(a[0], b[0], c[0]);
        } else {
            lemma_component_equal_congruent(a[0], b[0], c[0]);
            lemma_components_less_transitive(a.drop_first(), b.drop_first(), c.drop_first());
        }
    } else if b.len() > 0 {
        lemma_plain_tail(b);
        lemma_plain_tail(c);
    }
}

/// Versions of equal order compare alike with every other, as long as no
/// numeric component is past `u64::MAX`; and the order is transitive when,
/// besides, no component is `pre`. A number past `u64::MAX` is compared as
/// text, below shorter numbers that start with a larger digit; and `pre` is
/// above every number yet below the end of a version, so that `1.0.5` is
/// below `1.0-pre`, which is below `1.0`, which is below `1.0.5`.
pub proof fn law_version_order_transitive(a: Seq<char>, b: Seq<char>, c: Seq<char>)
    requires
        all_fit(components_of(a)),
        all_fit(components_of(b)),
        all_fit(components_of(c)),
    ensures
        plain_components(components_of(a)) && plain_components(components_of(b)) && plain_components(
            components_of(c),
        ) ==> (version_order(a, b) == Order::Less && version_order(b, c) == Order::Less
            ==> version_order(a, c) == Order::Less),
        version_order(a, b) == Order::Equal ==> version_order(a, c) == version_order(b, c)
            && version_order(c, a) == version_order(c, b),
{
    if plain_components(components_of(a)) && plain_components(components_of(b)) && plain_components(
        components_of(c),
    ) && version_order(a, b) == Order::Less && version_order(b, c) == Order::Less {
        lemma_components_less_transitive(components_of(a), components_of(b), components_of(c));
    }
    if version_order(a, b) == Order::Equal {
        lemma_components_equal_congruent(components_of(a), components_of(b), components_of(c));
    }
}

/// A version as displayed: its name, followed by ` ×n` when it stands for
/// `n > 1` copies.
pub open spec fn version_text(name: Seq<char>, amount: nat) -> Seq<char> {
    if amount > 1 {
        name + seq![' ', '\u{d7}'] + decimal(amount)
    } else {
        name
    }
}

/// A version string, and how many times it occurs.
#[derive(Debug, Clone, Eq, Hash)]
pub struct Version {
    pub name: String,
    pub amount: usize,
}

/// A component of a version string, such as a number or a pre-release tag.
#[derive(Debug, Clone, Copy, Eq)]
pub struct VersionComponent<'a>(pub &'a str);

/// Either a component of a version or one of its separators.
#[derive(Debug, Clone, Copy, Eq)]
pub enum VersionPiece<'a> {
    Component(VersionComponent<'a>),
    Separator(&'a str),
}

/// The pieces of a version string, taken one at a time from the front.
#[derive(Debug, Clone, Copy)]
pub struct VersionIter<'a>(pub &'a str);

impl View for Version {
    type V = (Seq<char>, nat);

    open spec fn view(&self) -> (Seq<char>, nat) {
        (self.name@, self.amount as nat)
    }
}

impl<'a> View for VersionComponent<'a> {
    type V = Seq<char>;

    open spec fn view(&self) -> Seq<char> {
        self.0@
    }
}

impl<'a> View for VersionPiece<'a> {
    type V = (bool, Seq<char>);

    open spec fn view(&self) -> (bool, Seq<char>) {
        match self {
            VersionPiece::Component(c) => (true, c.0@),
            VersionPiece::Separator(s) => (false, s@),
        }
    }
}

pub open spec fn piece_views<'a>(p: Seq<VersionPiece<'a>>) -> Seq<(bool, Seq<char>)> {
    p.map_values(|x: VersionPiece<'a>| x@)
}

pub open spec fn component_views<'a>(c: Seq<VersionComponent<'a>>) -> Seq<Seq<char>> {
    c.map_values(|x: VersionComponent<'a>| x@)
}

impl<'a> VersionComponent<'a> {
    /// Whether the component is the pre-release marker `pre`.
    fn is_pre(&self) -> (b: bool)
        ensures
            b == (self@ == pre_text()),
    {
        is_pre(&chars_of(self.0))
    }

    /// The underlying text.
    pub fn as_str(&self) -> (s: &'a str)
        ensures
            s@ == self@,
    {
        self.0
    }

    /// Whether the component is nonempty and made only of ASCII digits.
    pub fn is_numeric(&self) -> (b: bool)
        ensures
            b == is_numeric_text(self@),
    {
        let cs = chars_of(self.0);
        numeric_chars(&cs)
    }

    /// The component's value, when it is numeric and fits in a `u64`.
    pub fn as_u64(&self) -> (r: Option<u64>)
        ensures
            r == numeric_value(self@),
    {
        let cs = chars_of(self.0);
        if numeric_chars(&cs) {
            parse_u64_digits(&cs)
        } else {
            None
        }
    }

    /// Compares two components: numbers by value, other text by code point
    /// with `pre` first, and numbers before other text.
    pub fn compare(&self, other: &VersionComponent) -> (o: Order)
        ensures
            o == component_order(self@, other@),
    {
        let a = chars_of(self.0);
        let b = chars_of(other.0);
        compare_component_chars(&a, &b)
    }
}

fn numeric_chars(cs: &Vec<char>) -> (b: bool)
    ensures
        b == is_numeric_text(cs@),
{
    if cs.len() == 0 {
        return false;
    }
    let mut i: usize = 0;
    while i < cs.len()
        invariant
            i <= cs.len(),
            forall|k: int| 0 <= k < i ==> crate::text::is_digit(#[trigger] cs@[k]),
        decreases cs.len() - i,
    {
        if !crate::text::is_ascii_digit(cs[i]) {
            return false;
        }
        i = i + 1;
    }
    true
}

fn is_pre(cs: &Vec<char>) -> (b: bool)
    ensures
        b == (cs@ == pre_text()),
{
    let r = cs.len() == 3 && cs[0] == 'p' && cs[1] == 'r' && cs[2] == 'e';
    if r {
        assert(cs@ =~= pre_text());
    }
    r
}

fn compare_u64(x: u64, y: u64) -> (o: Order)
    ensures
        o == int_order(x as int, y as int),
{
    if x < y {
        Order::Less
    } else if x == y {
        Order::Equal
    } else {
        Order::Greater
    }
}

fn compare_component_chars(a: &Vec<char>, b: &Vec<char>) -> (o: Order)
    ensures
        o == component_order(a@, b@),
{
    let na = numeric_chars(a);
    let nb = numeric_chars(b);
    if na && nb {
        match (parse_u64_digits(a), parse_u64_digits(b)) {
            (Some(x), Some(y)) => compare_u64(x, y),
            _ => crate::text::chars_order(a, b),
        }
    } else if !na && !nb {
        let pa = is_pre(a);
        let pb = is_pre(b);
        if pa && !pb {
            Order::Less
        } else if pb && !pa {
            Order::Greater
        } else {
            crate::text::chars_order(a, b)
        }
    } else if na {
        Order::Less
    } else {
        Order::Greater
    }
}

impl<'a> VersionPiece<'a> {
    /// The component, when this piece is one.
    pub fn component(self) -> (r: Option<VersionComponent<'a>>)
        ensures
            r == (match self {
                VersionPiece::Component(c) => Some(c),
                VersionPiece::Separator(_) => None,
            }),
    {
        match self {
            VersionPiece::Component(c) => Some(c),
            VersionPiece::Separator(_) => None,
        }
    }

    /// The separator, when this piece is one.
    pub fn separator(self) -> (r: Option<&'a str>)
        ensures
            r == (match self {
                VersionPiece::Component(_) => None,
                VersionPiece::Separator(s) => Some(s),
            }),
    {
        match self {
            VersionPiece::Component(_) => None,
            VersionPiece::Separator(s) => Some(s),
        }
    }
}

impl<'a> VersionIter<'a> {
    /// Takes the next piece off the front: one separator character, or the
    /// longest run of characters that are not separators.
    pub fn next(&mut self) -> (r: Option<VersionPiece<'a>>)
        ensures
            old(self).0@.len() == 0 ==> r is None && final(self).0@ == old(self).0@,
            old(self).0@.len() > 0 ==> (r matches Some(p) && p@ == pieces_of(old(self).0@)[0]
                && final(self).0@ == old(self).0@.skip(first_piece_len(old(self).0@) as int)),
    {
        let ghost s0 = self.0@;
        let cs = chars_of(self.0);
        let len = cs.len();
        if len == 0 {
            return None;
        }
        proof {
            lemma_first_piece(s0);
            lemma_run_len(s0);
        }
        if is_version_separator(cs[0]) {
            let this = self.0.substring_char(0, 1);
            let rest = self.0.substring_char(1, len);
            self.0 = rest;
            return Some(VersionPiece::Separator(this));
        }
        let mut j: usize = 0;
        assert(s0.skip(0) == s0);
        while j < len && !is_version_separator(cs[j])
            invariant
                j <= len,
                len == s0.len(),
                cs@ == s0,
                run_len(s0) == j + run_len(s0.skip(j as int)),
            decreases len - j,
        {
            assert(s0.skip(j as int).drop_first() == s0.skip(j + 1));
            assert(s0.skip(j as int)[0] == s0[j as int]);
            j = j + 1;
        }
        if j < len {
            assert(s0.skip(j as int)[0] == s0[j as int]);
        }
        let this = self.0.substring_char(0, j);
        let rest = self.0.substring_char(j, len);
        self.0 = rest;
        Some(VersionPiece::Component(VersionComponent(this)))
    }

    /// All the pieces that remain, in order.
    pub fn pieces(self) -> (r: Vec<VersionPiece<'a>>)
        ensures
            piece_views(r@) == pieces_of(self.0@),
    {
        let mut it = self;
        let mut r: Vec<VersionPiece<'a>> = Vec::new();
        while it.0.unicode_len() > 0
            invariant
                piece_views(r@) + pieces_of(it.0@) == pieces_of(self.0@),
            decreases it.0@.len(),
        {
            let ghost before = it.0@;
            proof {
                lemma_first_piece(before);
            }
            let p = it.next();
            match p {
                Some(p) => {
                    r.push(p);
                    assert(piece_views(r@) == piece_views(r@.drop_last()).push(p@));
                    assert(pieces_of(before) == seq![p@] + pieces_of(it.0@));
                    assert(piece_views(r@) + pieces_of(it.0@) == piece_views(r@.drop_last())
                        + pieces_of(before));
                },
                None => {},
            }
        }
        assert(pieces_of(it.0@) == Seq::<(bool, Seq<char>)>::empty());
        assert(piece_views(r@) + pieces_of(it.0@) == piece_views(r@));
        r
    }

    /// The components that remain, in order.
    pub fn components(self) -> (r: Vec<VersionComponent<'a>>)
        ensures
            component_views(r@) == components_of(self.0@),
    {
        let pieces = self.pieces();
        let mut r: Vec<VersionComponent<'a>> = Vec::new();
        let mut i: usize = 0;
        while i < pieces.len()
            invariant
                i <= pieces.len(),
                piece_views(pieces@) == pieces_of(self.0@),
                component_views(r@) == component_texts(piece_views(pieces@).take(i as int)),
            decreases pieces.len() - i,
        {
            let ghost pv = piece_views(pieces@);
            assert(pv.take(i + 1).drop_last() == pv.take(i as int));
            assert(pv.take(i + 1).last() == pieces@[i as int]@);
            match pieces[i].component() {
                Some(c) => {
                    r.push(c);
                    assert(component_views(r@) == component_views(r@.drop_last()).push(c@));
                },
                None => {},
            }
            i = i + 1;
        }
        assert(piece_views(pieces@).take(pieces.len() as int) == piece_views(pieces@));
        r
    }
}

impl<'a> From<&'a str> for VersionIter<'a> {
    fn from(s: &'a str) -> (r: Self) {
        VersionIter(s)
    }
}

impl<'a> vstd::std_specs::convert::FromSpecImpl<&'a str> for VersionIter<'a> {
    open spec fn obeys_from_spec() -> bool {
        true
    }

    open spec fn from_spec(v: &'a str) -> Self {
        VersionIter(v)
    }
}

impl Version {
    /// A single occurrence of `version`.
    pub fn new(version: &str) -> (v: Version)
        ensures
            v.name@ == version@,
            v.amount == 1,
    {
        Version { name: version.to_owned(), amount: 1 }
    }

    /// The version as displayed: the name, then ` ×n` for `n > 1` copies.
    pub fn as_str(&self) -> (s: String)
        ensures
            s@ == version_text(self.name@, self.amount as nat),
    {
        if self.amount > 1 {
            let mut s = self.name.clone();
            s.push(' ');
            s.push('\u{d7}');
            let n = usize_to_decimal(self.amount);
            s.append(n.as_str());
            assert(s@ == self.name@ + seq![' ', '\u{d7}'] + decimal(self.amount as nat));
            s
        } else {
            self.name.clone()
        }
    }

    /// The pieces of the version string.
    pub fn pieces(&self) -> (r: Vec<VersionPiece<'_>>)
        ensures
            piece_views(r@) == pieces_of(self.name@),
    {
        VersionIter(self.name.as_str()).pieces()
    }

    /// The components of the version string.
    pub fn components(&self) -> (r: Vec<VersionComponent<'_>>)
        ensures
            component_views(r@) == components_of(self.name@),
    {
        VersionIter(self.name.as_str()).components()
    }

    /// Compares two versions component by component.
    pub fn compare(&self, other: &Version) -> (o: Order)
        ensures
            o == version_order(self.name@, other.name@),
    {
        let a = self.components();
        let b = other.components();
        compare_component_lists(&a, &b)
    }

    /// Whether two versions have the same name and amount.
    pub fn same(&self, other: &Version) -> (b: bool)
        ensures
            b == (self.name@ == other.name@ && self.amount == other.amount),
    {
        self.amount == other.amount && crate::text::str_eq(self.name.as_str(), other.name.as_str())
    }
}

fn compare_component_lists(a: &Vec<VersionComponent>, b: &Vec<VersionComponent>) -> (o: Order)
    ensures
        o == components_order(component_views(a@), component_views(b@)),
{
    let ghost av = component_views(a@);
    let ghost bv = component_views(b@);
    let mut i: usize = 0;
    assert(av.skip(0) == av);
    assert(bv.skip(0) == bv);
    while i < a.len() && i < b.len()
        invariant
            i <= a.len(),
            i <= b.len(),
            av == component_views(a@),
            bv == component_views(b@),
            components_order(av, bv) == components_order(av.skip(i as int), bv.skip(i as int)),
        decreases a.len() - i,
    {
        let o = a[i].compare(&b[i]);
        assert(av.skip(i as int)[0] == av[i as int]);
        assert(bv.skip(i as int)[0] == bv[i as int]);
        match o {
            Order::Equal => {},
            _ => {
                return o;
            },
        }
        assert(av.skip(i as int).drop_first() == av.skip(i + 1));
        assert(bv.skip(i as int).drop_first() == bv.skip(i + 1));
        i = i + 1;
    }
    if i < a.len() {
        assert(av.skip(i as int)[0] == av[i as int]);
        if a[i].is_pre() {
            Order::Less
        } else {
            Order::Greater
        }
    } else if i < b.len() {
        assert(bv.skip(i as int)[0] == bv[i as int]);
        if b[i].is_pre() {
            Order::Greater
        } else {
            Order::Less
        }
    } else {
        Order::Equal
    }
}

impl PartialEq for Version {
    fn eq(&self, other: &Version) -> (r: bool) {
        self.same(other)
    }
}

impl vstd::std_specs::cmp::PartialEqSpecImpl for Version {
    open spec fn obeys_eq_spec() -> bool {
        true
    }

    open spec fn eq_spec(&self, other: &Version) -> bool {
        self.name@ == other.name@ && self.amount == other.amount
    }
}

impl<'a> PartialEq for VersionComponent<'a> {
    fn eq(&self, other: &VersionComponent<'a>) -> (r: bool) {
        crate::text::str_eq(self.0, other.0)
    }
}

impl<'a> vstd::std_specs::cmp::PartialEqSpecImpl for VersionComponent<'a> {
    open spec fn obeys_eq_spec() -> bool {
        true
    }

    open spec fn eq_spec(&self, other: &VersionComponent<'a>) -> bool {
        self@ == other@
    }
}

impl<'a> PartialEq for VersionPiece<'a> {
    fn eq(&self, other: &VersionPiece<'a>) -> (r: bool) {
        same_piece(self, other)
    }
}

impl<'a> vstd::std_specs::cmp::PartialEqSpecImpl for VersionPiece<'a> {
    open spec fn obeys_eq_spec() -> bool {
        true
    }

    open spec fn eq_spec(&self, other: &VersionPiece<'a>) -> bool {
        self@ == other@
    }
}

/// Whether two pieces are of the same kind and text.
pub fn same_piece(a: &VersionPiece, b: &VersionPiece) -> (r: bool)
    ensures
        r == (a@ == b@),
{
    match (a, b) {
        (VersionPiece::Component(x), VersionPiece::Component(y)) => crate::text::str_eq(x.0, y.0),
        (VersionPiece::Separator(x), VersionPiece::Separator(y)) => crate::text::str_eq(x, y),
        _ => false,
    }
}

} // verus!
