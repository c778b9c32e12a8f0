//! The CSS value model and the stylesheet parser.
//!
//! A stylesheet is an ordered sequence of rules; a rule pairs a
//! selector list with a declaration block.  Every executable function
//! here is specified against a mathematical mirror of the grammar,
//! written as spec functions over the input viewed as a `Seq<char>`.

use vstd::prelude::*;

verus! {

// ---------------------------------------------------------------------------
// Value model
// ---------------------------------------------------------------------------

/// The unit of a length value.  A closed set: adding a unit means adding a
/// variant, not accepting arbitrary strings.
#[derive(Clone, Copy, PartialEq, Eq, Structural, Debug)]
pub enum Unit {
    Px,
}

/// An RGBA color; each channel ranges over 0..=255.
#[derive(Clone, Copy, PartialEq, Eq, Structural, Debug)]
pub struct Color {
    pub r: u8,
    pub g: u8,
    pub b: u8,
    pub a: u8,
}

/// A CSS property value: a bare keyword, a length with its unit, or a color.
///
/// A length keeps the numeric literal exactly as it stood in the source,
/// already checked to be a well-formed decimal number (`spec_is_decimal`).
#[derive(Debug)]
pub enum Value {
    Keyword(String),
    Length(String, Unit),
    ColorValue(Color),
}

impl Clone for Value {
    /// A clone denotes the same value.
    fn clone(&self) -> (r: Self)
        ensures
            r == *self,
    {
        match self {
            Value::Keyword(s) => Value::Keyword(s.clone()),
            Value::Length(n, u) => Value::Length(n.clone(), *u),
            Value::ColorValue(c) => Value::ColorValue(*c),
        }
    }
}

/// Mathematical image of `Value`: strings become character sequences.
#[verifier::ext_equal]
pub enum ValueView {
    Keyword(Seq<char>),
    Length(Seq<char>, Unit),
    ColorValue(Color),
}

impl View for Value {
    type V = ValueView;

    open spec fn view(&self) -> ValueView {
        match self {
            Value::Keyword(s) => ValueView::Keyword(s@),
            Value::Length(n, u) => ValueView::Length(n@, *u),
            Value::ColorValue(c) => ValueView::ColorValue(*c),
        }
    }
}

/// A selector matching on tag name, id and class membership of a single
/// element.  Each present field is a required condition; an absent field
/// imposes no constraint.
#[derive(Debug)]
pub struct SimpleSelector {
    pub tag_name: Option<String>,
    pub id: Option<String>,
    pub class: Vec<String>,
}

/// A selector.  Today only simple selectors exist; the enum keeps the set
/// closed so that future kinds are a compile-checked extension point.
#[derive(Debug)]
pub enum Selector {
    Simple(SimpleSelector),
}

/// Mathematical image of a selector.
#[verifier::ext_equal]
pub struct SelectorView {
    pub tag_name: Option<Seq<char>>,
    pub id: Option<Seq<char>>,
    pub class: Seq<Seq<char>>,
}

/// The views of a sequence of strings.
pub open spec fn str_views(v: Seq<String>) -> Seq<Seq<char>> {
    v.map_values(|c: String| c@)
}

impl View for SimpleSelector {
    type V = SelectorView;

    open spec fn view(&self) -> SelectorView {
        SelectorView {
            tag_name: match self.tag_name {
                Option::Some(t) => Option::Some(t@),
                Option::None => Option::None,
            },
            id: match self.id {
                Option::Some(i) => Option::Some(i@),
                Option::None => Option::None,
            },
            class: str_views(self.class@),
        }
    }
}

impl View for Selector {
    type V = SelectorView;

    open spec fn view(&self) -> SelectorView {
        match self {
            Selector::Simple(s) => s@,
        }
    }
}

/// One `name: value;` pair.
#[derive(Debug)]
pub struct Declaration {
    pub name: String,
    pub value: Value,
}

/// Mathematical image of a declaration.
#[verifier::ext_equal]
pub struct DeclarationView {
    pub name: Seq<char>,
    pub value: ValueView,
}

impl View for Declaration {
    type V = DeclarationView;

    open spec fn view(&self) -> DeclarationView {
        DeclarationView { name: self.name@, value: self.value@ }
    }
}

/// A selector list sharing one declaration block.  After parsing, the
/// selectors are sorted descending by specificity; `spec_parse_rule`
/// states that ordering.
#[derive(Debug)]
pub struct Rule {
    pub selectors: Vec<Selector>,
    pub declarations: Vec<Declaration>,
}

/// Mathematical image of a rule.
#[verifier::ext_equal]
pub struct RuleView {
    pub selectors: Seq<SelectorView>,
    pub declarations: Seq<DeclarationView>,
}

/// The views of a sequence of selectors.
pub open spec fn sel_views(v: Seq<Selector>) -> Seq<SelectorView> {
    v.map_values(|s: Selector| s@)
}

/// The views of a sequence of declarations.
pub open spec fn decl_views(v: Seq<Declaration>) -> Seq<DeclarationView> {
    v.map_values(|d: Declaration| d@)
}

impl View for Rule {
    type V = RuleView;

    open spec fn view(&self) -> RuleView {
        RuleView { selectors: sel_views(self.selectors@), declarations: decl_views(
            self.declarations@,
        ) }
    }
}

/// An ordered sequence of rules; immutable once parsed.
#[derive(Debug)]
pub struct StyleSheet {
    pub rules: Vec<Rule>,
}

/// The views of a sequence of rules.
pub open spec fn rule_views(v: Seq<Rule>) -> Seq<RuleView> {
    v.map_values(|r: Rule| r@)
}

impl View for StyleSheet {
    type V = Seq<RuleView>;

    open spec fn view(&self) -> Seq<RuleView> {
        rule_views(self.rules@)
    }
}

// ---------------------------------------------------------------------------
// Canonical text of values
// ---------------------------------------------------------------------------

/// The uppercase hexadecimal digit for `n`; defined for 0 through 15.
pub open spec fn hex_digit_char(n: int) -> char {
    if n == 0 { '0' }
    else if n == 1 { '1' }
    else if n == 2 { '2' }
    else if n == 3 { '3' }
    else if n == 4 { '4' }
    else if n == 5 { '5' }
    else if n == 6 { '6' }
    else if n == 7 { '7' }
    else if n == 8 { '8' }
    else if n == 9 { '9' }
    else if n == 10 { 'A' }
    else if n == 11 { 'B' }
    else if n == 12 { 'C' }
    else if n == 13 { 'D' }
    else if n == 14 { 'E' }
    else { 'F' }
}

/// A byte as two uppercase hexadecimal digits.
pub open spec fn spec_byte_hex(b: u8) -> Seq<char> {
    seq![hex_digit_char(b as int / 16), hex_digit_char(b as int % 16)]
}

/// The canonical text of a color: `#RRGGBBAA` in uppercase hex.
pub open spec fn spec_color_text(c: Color) -> Seq<char> {
    seq!['#'] + spec_byte_hex(c.r) + spec_byte_hex(c.g) + spec_byte_hex(c.b) + spec_byte_hex(c.a)
}

/// The canonical text of a value: the keyword itself, the length's
/// literal followed by its unit, or the color in `#RRGGBBAA` form.
pub open spec fn spec_value_text(v: ValueView) -> Seq<char> {
    match v {
        ValueView::Keyword(s) => s,
        ValueView::Length(n, u) => n + spec_px(),
        ValueView::ColorValue(c) => spec_color_text(c),
    }
}

/// The uppercase hexadecimal digit for `n`.
fn nibble_str(n: u8) -> (r: &'static str)
    requires
        n < 16,
    ensures
        r@ == seq![hex_digit_char(n as int)],
{
    match n {
        0 => { proof { reveal_strlit("0"); assert("0"@ =~= seq![hex_digit_char(0)]); } "0" },
        1 => { proof { reveal_strlit("1"); assert("1"@ =~= seq![hex_digit_char(1)]); } "1" },
        2 => { proof { reveal_strlit("2"); assert("2"@ =~= seq![hex_digit_char(2)]); } "2" },
        3 => { proof { reveal_strlit("3"); assert("3"@ =~= seq![hex_digit_char(3)]); } "3" },
        4 => { proof { reveal_strlit("4"); assert("4"@ =~= seq![hex_digit_char(4)]); } "4" },
        5 => { proof { reveal_strlit("5"); assert("5"@ =~= seq![hex_digit_char(5)]); } "5" },
        6 => { proof { reveal_strlit("6"); assert("6"@ =~= seq![hex_digit_char(6)]); } "6" },
        7 => { proof { reveal_strlit("7"); assert("7"@ =~= seq![hex_digit_char(7)]); } "7" },
        8 => { proof { reveal_strlit("8"); assert("8"@ =~= seq![hex_digit_char(8)]); } "8" },
        9 => { proof { reveal_strlit("9"); assert("9"@ =~= seq![hex_digit_char(9)]); } "9" },
        10 => { proof { reveal_strlit("A"); assert("A"@ =~= seq![hex_digit_char(10)]); } "A" },
        11 => { proof { reveal_strlit("B"); assert("B"@ =~= seq![hex_digit_char(11)]); } "B" },
        12 => { proof { reveal_strlit("C"); assert("C"@ =~= seq![hex_digit_char(12)]); } "C" },
        13 => { proof { reveal_strlit("D"); assert("D"@ =~= seq![hex_digit_char(13)]); } "D" },
        14 => { proof { reveal_strlit("E"); assert("E"@ =~= seq![hex_digit_char(14)]); } "E" },
        _ => { proof { reveal_strlit("F"); assert("F"@ =~= seq![hex_digit_char(15)]); } "F" },
    }
}

impl Unit {
    /// The unit's text.
    pub fn to_string(&self) -> (r: String)
        ensures
            r@ == spec_px(),
    {
        proof {
            reveal_strlit("px");
            assert("px"@ =~= spec_px());
        }
        String::from_str("px")
    }
}

impl Color {
    /// The color as `#RRGGBBAA`, uppercase.
    pub fn to_string(&self) -> (r: String)
        ensures
            r@ == spec_color_text(*self),
    {
        proof {
            reveal_strlit("#");
        }
        let mut s = String::from_str("#");
        s.append(nibble_str(self.r / 16));
        s.append(nibble_str(self.r % 16));
        s.append(nibble_str(self.g / 16));
        s.append(nibble_str(self.g % 16));
        s.append(nibble_str(self.b / 16));
        s.append(nibble_str(self.b % 16));
        s.append(nibble_str(self.a / 16));
        s.append(nibble_str(self.a % 16));
        proof {
            assert(s@ =~= spec_color_text(*self));
        }
        s
    }
}

impl Value {
    /// The value's canonical text.
    pub fn to_string(&self) -> (r: String)
        ensures
            r@ == spec_value_text(self@),
    {
        match self {
            Value::Keyword(s) => s.clone(),
            Value::Length(l, u) => {
                let mut t = l.clone();
                let unit = u.to_string();
                t.append(unit.as_str());
                t
            },
            Value::ColorValue(c) => c.to_string(),
        }
    }
}

// ---------------------------------------------------------------------------
// Specificity
// ---------------------------------------------------------------------------

/// Specificity as an `(id_count, class_count, tag_count)` triple, compared
/// lexicographically: id dominates class dominates tag.
pub type Specificity = (usize, usize, usize);

/// The specificity triple of a selector, as mathematical integers.
pub open spec fn spec_specificity(s: SelectorView) -> (int, int, int) {
    (
        if s.id is Some { 1int } else { 0int },
        s.class.len() as int,
        if s.tag_name is Some { 1int } else { 0int },
    )
}

/// Strict lexicographic order on specificity triples.
pub open spec fn spec_triple_lt(a: (int, int, int), b: (int, int, int)) -> bool {
    a.0 < b.0 || (a.0 == b.0 && (a.1 < b.1 || (a.1 == b.1 && a.2 < b.2)))
}

/// Non-strict lexicographic order on specificity triples.
pub open spec fn spec_triple_le(a: (int, int, int), b: (int, int, int)) -> bool {
    spec_triple_lt(a, b) || a == b
}

/// The triple a `Specificity` value denotes.
pub open spec fn spec_triple_of(s: Specificity) -> (int, int, int) {
    (s.0 as int, s.1 as int, s.2 as int)
}

impl Selector {
    /// The `(id, class, tag)` specificity of this selector.
    pub fn specificity(&self) -> (r: Specificity)
        ensures
            spec_triple_of(r) == spec_specificity(self@),
    {
        match self {
            Selector::Simple(simple) => {
                let a: usize = if simple.id.is_some() { 1 } else { 0 };
                let b: usize = simple.class.len();
                let c: usize = if simple.tag_name.is_some() { 1 } else { 0 };
                (a, b, c)
            },
        }
    }
}

/// Decides `spec_triple_le` on two specificity values.
pub fn specificity_le(a: Specificity, b: Specificity) -> (r: bool)
    ensures
        r == spec_triple_le(spec_triple_of(a), spec_triple_of(b)),
{
    a.0 < b.0 || (a.0 == b.0 && (a.1 < b.1 || (a.1 == b.1 && a.2 <= b.2)))
}

// ---------------------------------------------------------------------------
// Character classes and greedy scanning
// ---------------------------------------------------------------------------

/// The classes of characters the scanner consumes greedily.
pub enum CharClass {
    /// ASCII whitespace, skipped between syntactic units.
    Ws,
    /// Characters of identifiers: letters, digits, `_` and `-`.
    Ident,
    /// Hexadecimal digits, as in a color literal.
    HexDigit,
    /// Characters of a numeric token: digits, `.`, `-` and `+`.
    NumToken,
    /// Decimal digits.
    Digit,
    /// Anything but a single space, as in a class-attribute segment.
    NotSpace,
}

/// Membership of a character in a scanning class.
pub open spec fn char_in_class(c: char, k: CharClass) -> bool {
    match k {
        CharClass::Ws => c == ' ' || c == '\t' || c == '\n' || c == '\r' || c == '\u{b}'
            || c == '\u{c}',
        CharClass::Ident => ('a' <= c && c <= 'z') || ('A' <= c && c <= 'Z') || ('0' <= c && c
            <= '9') || c == '_' || c == '-',
        CharClass::HexDigit => ('0' <= c && c <= '9') || ('a' <= c && c <= 'f') || ('A' <= c && c
            <= 'F'),
        CharClass::NumToken => ('0' <= c && c <= '9') || c == '.' || c == '-' || c == '+',
        CharClass::Digit => '0' <= c && c <= '9',
        CharClass::NotSpace => c != ' ',
    }
}

/// The index just past the longest run of class-`k` characters starting at
/// `i`: the resting place of a greedy `consume_while`.
pub open spec fn scan_end(s: Seq<char>, i: int, k: CharClass) -> int
    decreases s.len() - i,
{
    if i < 0 || i >= s.len() {
        i
    } else if char_in_class(s[i], k) {
        scan_end(s, i + 1, k)
    } else {
        i
    }
}

/// A greedy scan stays within bounds, covers only class characters, and
/// stops at the first character outside the class.
pub proof fn lemma_scan_end(s: Seq<char>, i: int, k: CharClass)
    requires
        0 <= i <= s.len(),
    ensures
        i <= scan_end(s, i, k) <= s.len(),
        forall|m: int| i <= m < scan_end(s, i, k) ==> char_in_class(s[m], k),
        scan_end(s, i, k) < s.len() ==> !char_in_class(s[scan_end(s, i, k)], k),
    decreases s.len() - i,
{
    if i < s.len() && char_in_class(s[i], k) {
        lemma_scan_end(s, i + 1, k);
    }
}

/// Decides membership of `c` in class `k`.
pub fn char_in_class_exec(c: char, k: &CharClass) -> (r: bool)
    ensures
        r == char_in_class(c, *k),
{
    match k {
        CharClass::Ws => is_whitespace_char(c),
        CharClass::Ident => valid_identifier_char(c),
        CharClass::HexDigit => is_hex_digit_char(c),
        CharClass::NumToken => is_num_token_char(c),
        CharClass::Digit => is_digit_char(c),
        CharClass::NotSpace => c != ' ',
    }
}

/// The greedy scan on a borrowed string: the cursor-free counterpart of
/// `Parser::consume_class`.
pub fn scan_str(s: &str, from: usize, k: CharClass) -> (r: usize)
    requires
        from as int <= s@.len(),
    ensures
        r as int == scan_end(s@, from as int, k),
        from <= r,
{
    let n = s.unicode_len();
    let mut i = from;
    loop
        invariant
            from <= i <= n,
            n as nat == s@.len(),
            scan_end(s@, from as int, k) == scan_end(s@, i as int, k),
        ensures
            i as int == scan_end(s@, from as int, k),
            from <= i,
        decreases n - i,
    {
        if i >= n {
            break;
        }
        let c = s.get_char(i);
        if !char_in_class_exec(c, &k) {
            break;
        }
        i = i + 1;
    }
    i
}

/// Decides whitespace membership (`CharClass::Ws`).
pub fn is_whitespace_char(c: char) -> (r: bool)
    ensures
        r == char_in_class(c, CharClass::Ws),
{
    c == ' ' || c == '\t' || c == '\n' || c == '\r' || c == '\u{b}' || c == '\u{c}'
}

/// Decides whether `c` may appear in an identifier.
pub fn valid_identifier_char(c: char) -> (r: bool)
    ensures
        r == char_in_class(c, CharClass::Ident),
{
    match c {
        'a'..='z' | 'A'..='Z' | '_' | '-' | '0'..='9' => true,
        _ => false,
    }
}

/// Decides hexadecimal-digit membership.
pub fn is_hex_digit_char(c: char) -> (r: bool)
    ensures
        r == char_in_class(c, CharClass::HexDigit),
{
    match c {
        '0'..='9' | 'a'..='f' | 'A'..='F' => true,
        _ => false,
    }
}

/// Decides numeric-token membership: digits, `.`, `-`, `+`.
pub fn is_num_token_char(c: char) -> (r: bool)
    ensures
        r == char_in_class(c, CharClass::NumToken),
{
    match c {
        '0'..='9' | '.' | '-' | '+' => true,
        _ => false,
    }
}

/// Decides decimal-digit membership.
pub fn is_digit_char(c: char) -> (r: bool)
    ensures
        r == char_in_class(c, CharClass::Digit),
{
    match c {
        '0'..='9' => true,
        _ => false,
    }
}

// ---------------------------------------------------------------------------
// Parser errors
// ---------------------------------------------------------------------------

/// Why a stylesheet was rejected.
#[derive(Clone, Copy, PartialEq, Eq, Structural, Debug)]
pub enum CssErrorKind {
    /// A character stood where other syntax was required.
    UnexpectedChar(char),
    /// The input ended inside a construct.
    UnexpectedEnd,
    /// A numeric token did not form a decimal number.
    BadNumber,
    /// A unit other than `px` followed a number.
    UnknownUnit,
    /// A hex color with a digit count other than 3, 4, 6 or 8.
    BadHexColor,
}

/// A fatal parse error: its kind and the character position it was found at.
#[derive(Clone, Copy, PartialEq, Eq, Structural, Debug)]
pub struct CssError {
    pub kind: CssErrorKind,
    pub pos: usize,
}

// ---------------------------------------------------------------------------
// The parser
// ---------------------------------------------------------------------------

/// A cursor over the input text, advancing by whole characters.
pub struct Parser {
    input: String,
    pos: usize,
    len: usize,
}

impl Parser {
    /// The parser counts positions in characters and never passes the end.
    pub closed spec fn wf(&self) -> bool {
        self.len as nat == self.input@.len() && self.pos <= self.len
    }

    /// The input viewed as a character sequence.
    pub closed spec fn text(&self) -> Seq<char> {
        self.input@
    }

    /// The cursor position, in characters.
    pub closed spec fn at(&self) -> int {
        self.pos as int
    }

    /// Whether the cursor has passed the last character.
    fn eof(&self) -> (r: bool)
        requires
            self.wf(),
        ensures
            r == (self.at() >= self.text().len()),
    {
        self.pos >= self.len
    }

    /// The character under the cursor, without advancing.
    fn next_char(&self) -> (c: char)
        requires
            self.wf(),
            self.at() < self.text().len(),
        ensures
            c == self.text()[self.at()],
    {
        self.input.as_str().get_char(self.pos)
    }

    /// Returns the character under the cursor and advances past it.
    fn consume_char(&mut self) -> (c: char)
        requires
            old(self).wf(),
            old(self).at() < old(self).text().len(),
        ensures
            final(self).wf(),
            final(self).text() == old(self).text(),
            final(self).at() == old(self).at() + 1,
            c == old(self).text()[old(self).at()],
    {
        let c = self.next_char();
        self.pos = self.pos + 1;
        c
    }

    /// Greedily advances over class-`k` characters.
    fn consume_class(&mut self, k: CharClass) -> (start: usize)
        requires
            old(self).wf(),
        ensures
            final(self).wf(),
            final(self).text() == old(self).text(),
            start == old(self).pos,
            final(self).at() == scan_end(old(self).text(), old(self).at(), k),
            old(self).at() <= final(self).at() <= old(self).text().len(),
    {
        let start = self.pos;
        let ghost text0 = self.text();
        let ghost pos0 = self.at();
        loop
            invariant
                self.wf(),
                self.text() == text0,
                pos0 <= self.at(),
                scan_end(text0, pos0, k) == scan_end(text0, self.at(), k),
            ensures
                self.wf(),
                self.text() == text0,
                self.at() == scan_end(text0, pos0, k),
            decreases self.len - self.pos,
        {
            if self.eof() {
                break;
            }
            let c = self.next_char();
            let inside = match k {
                CharClass::Ws => is_whitespace_char(c),
                CharClass::Ident => valid_identifier_char(c),
                CharClass::HexDigit => is_hex_digit_char(c),
                CharClass::NumToken => is_num_token_char(c),
                CharClass::Digit => is_digit_char(c),
                CharClass::NotSpace => c != ' ',
            };
            if !inside {
                break;
            }
            self.pos = self.pos + 1;
        }
        start
    }

    /// Skips whitespace between syntactic units.
    fn consume_whitespace(&mut self)
        requires
            old(self).wf(),
        ensures
            final(self).wf(),
            final(self).text() == old(self).text(),
            final(self).at() == scan_end(old(self).text(), old(self).at(), CharClass::Ws),
            old(self).at() <= final(self).at() <= old(self).text().len(),
    {
        self.consume_class(CharClass::Ws);
    }

    /// Consumes the identifier starting at the cursor; possibly empty.
    fn parse_identifier(&mut self) -> (r: String)
        requires
            old(self).wf(),
        ensures
            final(self).wf(),
            final(self).text() == old(self).text(),
            final(self).at() == scan_end(old(self).text(), old(self).at(), CharClass::Ident),
            old(self).at() <= final(self).at() <= old(self).text().len(),
            r@ == old(self).text().subrange(
                old(self).at(),
                scan_end(old(self).text(), old(self).at(), CharClass::Ident),
            ),
    {
        let start = self.consume_class(CharClass::Ident);
        proof {
            lemma_scan_end(self.text(), start as int, CharClass::Ident);
        }
        let sub = self.input.as_str().substring_char(start, self.pos);
        String::from_str(sub)
    }
}

// ---------------------------------------------------------------------------
// Hex digits and color channels
// ---------------------------------------------------------------------------

/// The numeric value of a hexadecimal digit; any other character counts 0.
pub open spec fn spec_hex_val(c: char) -> int {
    if c == '0' { 0 }
    else if c == '1' { 1 }
    else if c == '2' { 2 }
    else if c == '3' { 3 }
    else if c == '4' { 4 }
    else if c == '5' { 5 }
    else if c == '6' { 6 }
    else if c == '7' { 7 }
    else if c == '8' { 8 }
    else if c == '9' { 9 }
    else if c == 'a' || c == 'A' { 10 }
    else if c == 'b' || c == 'B' { 11 }
    else if c == 'c' || c == 'C' { 12 }
    else if c == 'd' || c == 'D' { 13 }
    else if c == 'e' || c == 'E' { 14 }
    else if c == 'f' || c == 'F' { 15 }
    else { 0 }
}

/// A color channel read from one or two hex digits.  A lone digit `d` is
/// expanded to `d * 255 / 15` (integer division), so `#1` maps to 17; a
/// pair is the usual `high * 16 + low`.
pub open spec fn spec_channel(c1: char, c2: Option<char>) -> int {
    match c2 {
        Option::Some(c2) => spec_hex_val(c1) * 16 + spec_hex_val(c2),
        Option::None => spec_hex_val(c1) * 255 / 15,
    }
}

/// The numeric value of a hexadecimal digit.
pub fn hex(c: &char) -> (r: u8)
    ensures
        r as int == spec_hex_val(*c),
{
    match c {
        '0' => 0,
        '1' => 1,
        '2' => 2,
        '3' => 3,
        '4' => 4,
        '5' => 5,
        '6' => 6,
        '7' => 7,
        '8' => 8,
        '9' => 9,
        'a' | 'A' => 10,
        'b' | 'B' => 11,
        'c' | 'C' => 12,
        'd' | 'D' => 13,
        'e' | 'E' => 14,
        'f' | 'F' => 15,
        _ => 0,
    }
}

// ---------------------------------------------------------------------------
// Numeric literals
// ---------------------------------------------------------------------------

/// Whether a numeric token is a well-formed decimal literal: an optional
/// sign, then digits, an optional point, and digits again, with at least
/// one digit in all.
pub open spec fn spec_is_decimal(t: Seq<char>) -> bool {
    let b: int = if t.len() > 0 && (t[0] == '+' || t[0] == '-') { 1 } else { 0 };
    let d1 = scan_end(t, b, CharClass::Digit);
    if d1 == t.len() {
        d1 > b
    } else if t[d1] != '.' {
        false
    } else {
        let d2 = scan_end(t, d1 + 1, CharClass::Digit);
        d2 == t.len() && (d1 > b || d2 > d1 + 1)
    }
}

/// Decides `spec_is_decimal` on a borrowed token.
pub fn is_decimal_token(s: &str) -> (r: bool)
    ensures
        r == spec_is_decimal(s@),
{
    let n = s.unicode_len();
    let mut b: usize = 0;
    if n > 0 {
        let c = s.get_char(0);
        if c == '+' || c == '-' {
            b = 1;
        }
    }
    let d1 = scan_str(s, b, CharClass::Digit);
    proof {
        lemma_scan_end(s@, b as int, CharClass::Digit);
    }
    if d1 == n {
        d1 > b
    } else if s.get_char(d1) != '.' {
        false
    } else {
        let d2 = scan_str(s, d1 + 1, CharClass::Digit);
        d2 == n && (d1 > b || d2 > d1 + 1)
    }
}

// ---------------------------------------------------------------------------
// The value grammar
// ---------------------------------------------------------------------------

/// The outcome of one grammar production: the parsed construct and the
/// cursor position after it, or the error and the position it arose at.
pub type SpecParsed<T> = Result<(T, int), (CssErrorKind, int)>;

/// The color production, entered with the cursor on `#`: greedily take hex
/// digits; exactly 3, 4, 6 or 8 of them form a color, anything else is
/// fatal.  Short forms read one digit per channel, long forms two; the
/// 3- and 6-digit forms are fully opaque.
pub open spec fn spec_parse_color(s: Seq<char>, i: int) -> SpecParsed<ValueView> {
    let j = scan_end(s, i + 1, CharClass::HexDigit);
    if j >= s.len() {
        Err((CssErrorKind::UnexpectedEnd, j))
    } else {
        let n = j - (i + 1);
        if n == 3 {
            Ok((ValueView::ColorValue(Color {
                r: spec_channel(s[i + 1], Option::None) as u8,
                g: spec_channel(s[i + 2], Option::None) as u8,
                b: spec_channel(s[i + 3], Option::None) as u8,
                a: 255,
            }), j))
        } else if n == 4 {
            Ok((ValueView::ColorValue(Color {
                r: spec_channel(s[i + 1], Option::None) as u8,
                g: spec_channel(s[i + 2], Option::None) as u8,
                b: spec_channel(s[i + 3], Option::None) as u8,
                a: spec_channel(s[i + 4], Option::None) as u8,
            }), j))
        } else if n == 6 {
            Ok((ValueView::ColorValue(Color {
                r: spec_channel(s[i + 1], Option::Some(s[i + 2])) as u8,
                g: spec_channel(s[i + 3], Option::Some(s[i + 4])) as u8,
                b: spec_channel(s[i + 5], Option::Some(s[i + 6])) as u8,
                a: 255,
            }), j))
        } else if n == 8 {
            Ok((ValueView::ColorValue(Color {
                r: spec_channel(s[i + 1], Option::Some(s[i + 2])) as u8,
                g: spec_channel(s[i + 3], Option::Some(s[i + 4])) as u8,
                b: spec_channel(s[i + 5], Option::Some(s[i + 6])) as u8,
                a: spec_channel(s[i + 7], Option::Some(s[i + 8])) as u8,
            }), j))
        } else {
            Err((CssErrorKind::BadHexColor, i))
        }
    }
}

/// The token `px`.
pub open spec fn spec_px() -> Seq<char> {
    seq!['p', 'x']
}

/// The length production: greedily take numeric-token characters, reject
/// the token unless it is a decimal literal, then require the unit `px`.
pub open spec fn spec_parse_num(s: Seq<char>, i: int) -> SpecParsed<ValueView> {
    let j = scan_end(s, i, CharClass::NumToken);
    let tok = s.subrange(i, j);
    if !spec_is_decimal(tok) {
        Err((CssErrorKind::BadNumber, i))
    } else {
        let u = scan_end(s, j, CharClass::Ident);
        if s.subrange(j, u) == spec_px() {
            Ok((ValueView::Length(tok, Unit::Px), u))
        } else {
            Err((CssErrorKind::UnknownUnit, j))
        }
    }
}

/// The value production, dispatched on the first character: `#` starts a
/// color, a digit or sign a length, anything else a keyword.
pub open spec fn spec_parse_value(s: Seq<char>, i: int) -> SpecParsed<ValueView> {
    if i >= s.len() {
        Err((CssErrorKind::UnexpectedEnd, i))
    } else if s[i] == '#' {
        spec_parse_color(s, i)
    } else if char_in_class(s[i], CharClass::Digit) || s[i] == '-' || s[i] == '+' {
        spec_parse_num(s, i)
    } else {
        let j = scan_end(s, i, CharClass::Ident);
        Ok((ValueView::Keyword(s.subrange(i, j)), j))
    }
}

// ---------------------------------------------------------------------------
// The selector grammar
// ---------------------------------------------------------------------------

/// The selector with no constraints at all.
pub open spec fn spec_empty_selector() -> SelectorView {
    SelectorView { tag_name: Option::None, id: Option::None, class: Seq::empty() }
}

/// One simple selector, read greedily from position `i` with the partial
/// selector `sel` already accumulated: `#id` sets the id, `.class` appends
/// a class, `*` is consumed and discarded, and a bare identifier sets (or
/// overwrites) the tag name.  Stops at the first character that starts
/// none of these.
pub open spec fn spec_parse_simple_selector(s: Seq<char>, i: int, sel: SelectorView) -> (
    SelectorView,
    int,
)
    decreases s.len() - i,
    when 0 <= i <= s.len()
    via spec_parse_simple_selector_dec
{
    if i >= s.len() {
        (sel, i)
    } else {
        let c = s[i];
        if c == '#' {
            let j = scan_end(s, i + 1, CharClass::Ident);
            spec_parse_simple_selector(
                s,
                j,
                SelectorView { id: Option::Some(s.subrange(i + 1, j)), ..sel },
            )
        } else if c == '.' {
            let j = scan_end(s, i + 1, CharClass::Ident);
            spec_parse_simple_selector(
                s,
                j,
                SelectorView { class: sel.class.push(s.subrange(i + 1, j)), ..sel },
            )
        } else if c == '*' {
            spec_parse_simple_selector(s, i + 1, sel)
        } else if char_in_class(c, CharClass::Ident) {
            let j = scan_end(s, i, CharClass::Ident);
            spec_parse_simple_selector(
                s,
                j,
                SelectorView { tag_name: Option::Some(s.subrange(i, j)), ..sel },
            )
        } else {
            (sel, i)
        }
    }
}

#[via_fn]
proof fn spec_parse_simple_selector_dec(s: Seq<char>, i: int, sel: SelectorView) {
    if 0 <= i < s.len() {
        lemma_scan_end(s, i + 1, CharClass::Ident);
        lemma_scan_end(s, i, CharClass::Ident);
    }
}

/// A simple selector never moves the cursor backwards or past the end.
pub proof fn lemma_parse_simple_selector_bounds(s: Seq<char>, i: int, sel: SelectorView)
    requires
        0 <= i <= s.len(),
    ensures
        i <= spec_parse_simple_selector(s, i, sel).1 <= s.len(),
    decreases s.len() - i,
{
    if i < s.len() {
        let c = s[i];
        if c == '#' || c == '.' {
            lemma_scan_end(s, i + 1, CharClass::Ident);
            let j = scan_end(s, i + 1, CharClass::Ident);
            if c == '#' {
                lemma_parse_simple_selector_bounds(
                    s,
                    j,
                    SelectorView { id: Option::Some(s.subrange(i + 1, j)), ..sel },
                );
            } else {
                lemma_parse_simple_selector_bounds(
                    s,
                    j,
                    SelectorView { class: sel.class.push(s.subrange(i + 1, j)), ..sel },
                );
            }
        } else if c == '*' {
            lemma_parse_simple_selector_bounds(s, i + 1, sel);
        } else if char_in_class(c, CharClass::Ident) {
            lemma_scan_end(s, i, CharClass::Ident);
            let j = scan_end(s, i, CharClass::Ident);
            lemma_parse_simple_selector_bounds(
                s,
                j,
                SelectorView { tag_name: Option::Some(s.subrange(i, j)), ..sel },
            );
        }
    }
}

/// The selector list of one rule, in source order: simple selectors
/// separated by commas, ended by `{` (left unconsumed).  Any other
/// separator, or the end of the input, is fatal.
pub open spec fn spec_parse_selectors(s: Seq<char>, i: int) -> SpecParsed<Seq<SelectorView>>
    decreases s.len() - i,
    when 0 <= i <= s.len()
    via spec_parse_selectors_dec
{
    let (sel, j) = spec_parse_simple_selector(s, i, spec_empty_selector());
    let k = scan_end(s, j, CharClass::Ws);
    if k >= s.len() {
        Err((CssErrorKind::UnexpectedEnd, k))
    } else if s[k] == ',' {
        let m = scan_end(s, k + 1, CharClass::Ws);
        match spec_parse_selectors(s, m) {
            Ok((rest, e)) => Ok((seq![sel] + rest, e)),
            Err(e) => Err(e),
        }
    } else if s[k] == '{' {
        Ok((seq![sel], k))
    } else {
        Err((CssErrorKind::UnexpectedChar(s[k]), k))
    }
}

#[via_fn]
proof fn spec_parse_selectors_dec(s: Seq<char>, i: int) {
    if 0 <= i <= s.len() {
        lemma_parse_simple_selector_bounds(s, i, spec_empty_selector());
        let j = spec_parse_simple_selector(s, i, spec_empty_selector()).1;
        lemma_scan_end(s, j, CharClass::Ws);
        let k = scan_end(s, j, CharClass::Ws);
        if k < s.len() && s[k] == ',' {
            lemma_scan_end(s, k + 1, CharClass::Ws);
        }
    }
}

/// A selector list that parses ends on its `{`, within the input.
pub proof fn lemma_parse_selectors_bounds(s: Seq<char>, i: int)
    requires
        0 <= i <= s.len(),
    ensures
        match spec_parse_selectors(s, i) {
            Ok((_, p)) => i <= p < s.len() && s[p] == '{',
            Err(_) => true,
        },
    decreases s.len() - i,
{
    lemma_parse_simple_selector_bounds(s, i, spec_empty_selector());
    let j = spec_parse_simple_selector(s, i, spec_empty_selector()).1;
    lemma_scan_end(s, j, CharClass::Ws);
    let k = scan_end(s, j, CharClass::Ws);
    if k < s.len() && s[k] == ',' {
        lemma_scan_end(s, k + 1, CharClass::Ws);
        lemma_parse_selectors_bounds(s, scan_end(s, k + 1, CharClass::Ws));
    }
}

// ---------------------------------------------------------------------------
// Declarations, rules and the stylesheet
// ---------------------------------------------------------------------------

/// A value that parses ends at or after where it began, within the input.
pub proof fn lemma_parse_value_bounds(s: Seq<char>, i: int)
    requires
        0 <= i <= s.len(),
    ensures
        match spec_parse_value(s, i) {
            Ok((_, p)) => i <= p <= s.len(),
            Err(_) => true,
        },
{
    if i < s.len() {
        if s[i] == '#' {
            lemma_scan_end(s, i + 1, CharClass::HexDigit);
        } else if char_in_class(s[i], CharClass::Digit) || s[i] == '-' || s[i] == '+' {
            lemma_scan_end(s, i, CharClass::NumToken);
            lemma_scan_end(s, scan_end(s, i, CharClass::NumToken), CharClass::Ident);
        } else {
            lemma_scan_end(s, i, CharClass::Ident);
        }
    }
}

/// One declaration: an identifier, `:`, a value and a closing `;`, with
/// whitespace allowed around the punctuation.
pub open spec fn spec_parse_declaration(s: Seq<char>, i: int) -> SpecParsed<DeclarationView> {
    let j1 = scan_end(s, i, CharClass::Ident);
    let name = s.subrange(i, j1);
    let j2 = scan_end(s, j1, CharClass::Ws);
    if j2 >= s.len() {
        Err((CssErrorKind::UnexpectedEnd, j2))
    } else if s[j2] != ':' {
        Err((CssErrorKind::UnexpectedChar(s[j2]), j2))
    } else {
        let j3 = scan_end(s, j2 + 1, CharClass::Ws);
        match spec_parse_value(s, j3) {
            Err(e) => Err(e),
            Ok((v, j4)) => {
                let j5 = scan_end(s, j4, CharClass::Ws);
                if j5 >= s.len() {
                    Err((CssErrorKind::UnexpectedEnd, j5))
                } else if s[j5] != ';' {
                    Err((CssErrorKind::UnexpectedChar(s[j5]), j5))
                } else {
                    Ok((DeclarationView { name, value: v }, j5 + 1))
                }
            },
        }
    }
}

/// A declaration that parses moves the cursor strictly forward.
pub proof fn lemma_parse_declaration_bounds(s: Seq<char>, i: int)
    requires
        0 <= i <= s.len(),
    ensures
        match spec_parse_declaration(s, i) {
            Ok((_, p)) => i < p <= s.len(),
            Err(_) => true,
        },
{
    lemma_scan_end(s, i, CharClass::Ident);
    let j1 = scan_end(s, i, CharClass::Ident);
    lemma_scan_end(s, j1, CharClass::Ws);
    let j2 = scan_end(s, j1, CharClass::Ws);
    if j2 < s.len() && s[j2] == ':' {
        lemma_scan_end(s, j2 + 1, CharClass::Ws);
        let j3 = scan_end(s, j2 + 1, CharClass::Ws);
        lemma_parse_value_bounds(s, j3);
        if let Ok((_, j4)) = spec_parse_value(s, j3) {
            lemma_scan_end(s, j4, CharClass::Ws);
        }
    }
}

/// The declarations of a block after its first one has begun: declarations
/// separated by whitespace until the closing `}`, which is consumed.
pub open spec fn spec_parse_decl_list(s: Seq<char>, i: int) -> SpecParsed<Seq<DeclarationView>>
    decreases s.len() - i,
    when 0 <= i <= s.len()
    via spec_parse_decl_list_dec
{
    match spec_parse_declaration(s, i) {
        Err(e) => Err(e),
        Ok((d, j)) => {
            let k = scan_end(s, j, CharClass::Ws);
            if k >= s.len() {
                Err((CssErrorKind::UnexpectedEnd, k))
            } else if s[k] == '}' {
                Ok((seq![d], k + 1))
            } else {
                match spec_parse_decl_list(s, k) {
                    Ok((rest, e)) => Ok((seq![d] + rest, e)),
                    Err(e) => Err(e),
                }
            }
        },
    }
}

#[via_fn]
proof fn spec_parse_decl_list_dec(s: Seq<char>, i: int) {
    if 0 <= i <= s.len() {
        lemma_parse_declaration_bounds(s, i);
        if let Ok((_, j)) = spec_parse_declaration(s, i) {
            lemma_scan_end(s, j, CharClass::Ws);
        }
    }
}

/// A declaration list that parses moves the cursor strictly forward.
pub proof fn lemma_parse_decl_list_bounds(s: Seq<char>, i: int)
    requires
        0 <= i <= s.len(),
    ensures
        match spec_parse_decl_list(s, i) {
            Ok((_, p)) => i < p <= s.len(),
            Err(_) => true,
        },
    decreases s.len() - i,
{
    lemma_parse_declaration_bounds(s, i);
    if let Ok((_, j)) = spec_parse_declaration(s, i) {
        lemma_scan_end(s, j, CharClass::Ws);
        let k = scan_end(s, j, CharClass::Ws);
        if k < s.len() && s[k] != '}' {
            lemma_parse_decl_list_bounds(s, k);
        }
    }
}

/// A declaration block: `{`, then declarations until `}`.  A block that
/// closes at once has no declarations.
pub open spec fn spec_parse_declarations(s: Seq<char>, i: int) -> SpecParsed<
    Seq<DeclarationView>,
> {
    if i >= s.len() {
        Err((CssErrorKind::UnexpectedEnd, i))
    } else if s[i] != '{' {
        Err((CssErrorKind::UnexpectedChar(s[i]), i))
    } else {
        let j = scan_end(s, i + 1, CharClass::Ws);
        if j >= s.len() {
            Err((CssErrorKind::UnexpectedEnd, j))
        } else if s[j] == '}' {
            Ok((Seq::empty(), j + 1))
        } else {
            spec_parse_decl_list(s, j)
        }
    }
}

/// A block that parses moves the cursor strictly forward.
pub proof fn lemma_parse_declarations_bounds(s: Seq<char>, i: int)
    requires
        0 <= i <= s.len(),
    ensures
        match spec_parse_declarations(s, i) {
            Ok((_, p)) => i < p <= s.len(),
            Err(_) => true,
        },
{
    if i < s.len() && s[i] == '{' {
        lemma_scan_end(s, i + 1, CharClass::Ws);
        let j = scan_end(s, i + 1, CharClass::Ws);
        if j < s.len() && s[j] != '}' {
            lemma_parse_decl_list_bounds(s, j);
        }
    }
}

/// One rule: a selector list and its block.  The parsed selectors are
/// sorted descending by specificity, so that the first selector of a rule
/// that matches an element is one of its highest matching specificity.
pub open spec fn spec_parse_rule(s: Seq<char>, i: int) -> SpecParsed<RuleView> {
    match spec_parse_selectors(s, i) {
        Err(e) => Err(e),
        Ok((sels, j)) => match spec_parse_declarations(s, j) {
            Err(e) => Err(e),
            Ok((decls, k)) => Ok(
                (RuleView { selectors: spec_sort_desc(sels), declarations: decls }, k),
            ),
        },
    }
}

/// A rule that parses moves the cursor strictly forward.
pub proof fn lemma_parse_rule_bounds(s: Seq<char>, i: int)
    requires
        0 <= i <= s.len(),
    ensures
        match spec_parse_rule(s, i) {
            Ok((_, p)) => i < p <= s.len(),
            Err(_) => true,
        },
{
    lemma_parse_selectors_bounds(s, i);
    if let Ok((_, j)) = spec_parse_selectors(s, i) {
        lemma_parse_declarations_bounds(s, j);
    }
}

/// The rules of a stylesheet: rules separated by whitespace until the end
/// of the input.
pub open spec fn spec_parse_rules(s: Seq<char>, i: int) -> SpecParsed<Seq<RuleView>>
    decreases s.len() - i,
    when 0 <= i <= s.len()
    via spec_parse_rules_dec
{
    if i >= s.len() {
        Ok((Seq::empty(), i))
    } else {
        match spec_parse_rule(s, i) {
            Err(e) => Err(e),
            Ok((r, j)) => {
                let k = scan_end(s, j, CharClass::Ws);
                match spec_parse_rules(s, k) {
                    Ok((rest, e)) => Ok((seq![r] + rest, e)),
                    Err(e) => Err(e),
                }
            },
        }
    }
}

#[via_fn]
proof fn spec_parse_rules_dec(s: Seq<char>, i: int) {
    if 0 <= i < s.len() {
        lemma_parse_rule_bounds(s, i);
        if let Ok((_, j)) = spec_parse_rule(s, i) {
            lemma_scan_end(s, j, CharClass::Ws);
        }
    }
}

/// A whole stylesheet: leading whitespace, then rules to the end of the
/// input.  This is the contract of `Parser::parse`.
pub open spec fn spec_parse(s: Seq<char>) -> Result<Seq<RuleView>, (CssErrorKind, int)> {
    match spec_parse_rules(s, scan_end(s, 0, CharClass::Ws)) {
        Ok((rules, _)) => Ok(rules),
        Err(e) => Err(e),
    }
}

// ---------------------------------------------------------------------------
// Sorting selectors by descending specificity
// ---------------------------------------------------------------------------

/// Inserts `x` into `s` after every element of specificity at least
/// `x`'s own: the inner step of a stable insertion sort, descending.
pub open spec fn spec_insert_desc(s: Seq<SelectorView>, x: SelectorView) -> Seq<SelectorView>
    decreases s.len(),
{
    if s.len() == 0 {
        seq![x]
    } else if spec_triple_le(spec_specificity(x), spec_specificity(s[0])) {
        seq![s[0]] + spec_insert_desc(s.drop_first(), x)
    } else {
        seq![x] + s
    }
}

/// A stable insertion sort by descending specificity: ties keep their
/// source order.
pub open spec fn spec_sort_desc(s: Seq<SelectorView>) -> Seq<SelectorView>
    decreases s.len(),
{
    if s.len() == 0 {
        Seq::empty()
    } else {
        spec_insert_desc(spec_sort_desc(s.drop_last()), s.last())
    }
}

/// Where the scan of an insertion stopped, the inserted element splits the
/// sequence there.
proof fn lemma_insert_desc_at(s: Seq<SelectorView>, x: SelectorView, i: int)
    requires
        0 <= i <= s.len(),
        forall|m: int| 0 <= m < i ==> spec_triple_le(
            spec_specificity(x),
            spec_specificity(s[m]),
        ),
        i < s.len() ==> !spec_triple_le(spec_specificity(x), spec_specificity(s[i])),
    ensures
        spec_insert_desc(s, x) == s.subrange(0, i) + seq![x] + s.subrange(i, s.len() as int),
    decreases i,
{
    if i == 0 {
        if s.len() == 0 {
            assert(spec_insert_desc(s, x) =~= s.subrange(0, 0) + seq![x] + s.subrange(
                0,
                s.len() as int,
            ));
        } else {
            assert(spec_insert_desc(s, x) =~= s.subrange(0, 0) + seq![x] + s.subrange(
                0,
                s.len() as int,
            ));
        }
    } else {
        lemma_insert_desc_at(s.drop_first(), x, i - 1);
        assert(spec_insert_desc(s, x) =~= s.subrange(0, i) + seq![x] + s.subrange(
            i,
            s.len() as int,
        ));
    }
}

/// Inserts one selector into an already sorted vector, in place.
fn insert_selector_desc(v: &mut Vec<Selector>, x: Selector)
    ensures
        sel_views(final(v)@) == spec_insert_desc(sel_views(old(v)@), x@),
{
    let ghost s = sel_views(v@);
    let xs = x.specificity();
    let mut i: usize = 0;
    loop
        invariant
            0 <= i <= v@.len(),
            sel_views(v@) == s,
            spec_triple_of(xs) == spec_specificity(x@),
            forall|m: int| 0 <= m < i ==> spec_triple_le(
                spec_specificity(x@),
                spec_specificity(s[m]),
            ),
        ensures
            0 <= i <= v@.len(),
            sel_views(v@) == s,
            forall|m: int| 0 <= m < i ==> spec_triple_le(
                spec_specificity(x@),
                spec_specificity(s[m]),
            ),
            i < v@.len() ==> !spec_triple_le(spec_specificity(x@), spec_specificity(s[i as int])),
        decreases v@.len() - i,
    {
        if i >= v.len() {
            break;
        }
        let vs = v[i].specificity();
        if !specificity_le(xs, vs) {
            break;
        }
        i = i + 1;
    }
    proof {
        lemma_insert_desc_at(s, x@, i as int);
    }
    let ghost before = v@;
    v.insert(i, x);
    proof {
        assert(sel_views(v@) =~= s.subrange(0, i as int) + seq![x@] + s.subrange(
            i as int,
            s.len() as int,
        ));
    }
}

/// Descending order by specificity over a whole selector sequence.
pub open spec fn spec_sorted_desc(s: Seq<SelectorView>) -> bool {
    forall|i: int, j: int|
        0 <= i < j < s.len() ==> spec_triple_le(
            spec_specificity(s[j]),
            spec_specificity(s[i]),
        )
}

/// Prepending an element inserts it into the sequence's multiset.
proof fn lemma_prepend_multiset<T>(a: T, s: Seq<T>)
    ensures
        (seq![a] + s).to_multiset() == s.to_multiset().insert(a),
{
    broadcast use vstd::seq_lib::group_to_multiset_ensures;

    let t = seq![a] + s;
    assert(t.remove(0) =~= s);
    assert(t[0] == a);
    assert(t.contains(a));
    assert(t.to_multiset() =~= s.to_multiset().insert(a));
}

/// Insertion keeps exactly the elements, adding the inserted one.
proof fn lemma_insert_desc_multiset(s: Seq<SelectorView>, x: SelectorView)
    ensures
        spec_insert_desc(s, x).to_multiset() == s.to_multiset().insert(x),
    decreases s.len(),
{
    broadcast use vstd::seq_lib::group_to_multiset_ensures;

    if s.len() == 0 {
        assert(spec_insert_desc(s, x) =~= Seq::<SelectorView>::empty().push(x));
        assert(s =~= Seq::<SelectorView>::empty());
    } else if spec_triple_le(spec_specificity(x), spec_specificity(s[0])) {
        lemma_insert_desc_multiset(s.drop_first(), x);
        lemma_prepend_multiset(s[0], spec_insert_desc(s.drop_first(), x));
        lemma_prepend_multiset(s[0], s.drop_first());
        assert(seq![s[0]] + s.drop_first() =~= s);
        assert(spec_insert_desc(s, x).to_multiset() =~= s.to_multiset().insert(x));
    } else {
        lemma_prepend_multiset(x, s);
    }
}

/// The parse-time sort is a permutation: it keeps exactly the selectors
/// that were written, with their multiplicities.
pub proof fn lemma_sort_desc_multiset(s: Seq<SelectorView>)
    ensures
        spec_sort_desc(s).to_multiset() == s.to_multiset(),
    decreases s.len(),
{
    broadcast use vstd::seq_lib::group_to_multiset_ensures;

    if s.len() > 0 {
        lemma_sort_desc_multiset(s.drop_last());
        lemma_insert_desc_multiset(spec_sort_desc(s.drop_last()), s.last());
        assert(s =~= s.drop_last().push(s.last()));
    }
}

/// Insertion into a sorted sequence keeps it sorted.
proof fn lemma_insert_desc_sorted(s: Seq<SelectorView>, x: SelectorView)
    requires
        spec_sorted_desc(s),
    ensures
        spec_sorted_desc(spec_insert_desc(s, x)),
    decreases s.len(),
{
    broadcast use vstd::seq_lib::group_to_multiset_ensures;

    if s.len() == 0 {
    } else if spec_triple_le(spec_specificity(x), spec_specificity(s[0])) {
        let rest = s.drop_first();
        assert(spec_sorted_desc(rest)) by {
            assert(forall|i: int, j: int|
                0 <= i < j < rest.len() ==> spec_triple_le(
                    spec_specificity(rest[j]),
                    spec_specificity(rest[i]),
                ));
        }
        lemma_insert_desc_sorted(rest, x);
        lemma_insert_desc_multiset(rest, x);
        let t1 = spec_insert_desc(rest, x);
        let t = spec_insert_desc(s, x);
        assert(t == seq![s[0]] + t1);
        assert forall|m: int| 0 <= m < t1.len() implies spec_triple_le(
            spec_specificity(t1[m]),
            spec_specificity(s[0]),
        ) by {
            let y = t1[m];
            assert(t1.contains(y));
            assert(t1.to_multiset().count(y) > 0);
            if y != x {
                assert(rest.to_multiset().count(y) > 0);
                assert(rest.contains(y));
                let w = choose|w: int| 0 <= w < rest.len() && rest[w] == y;
                assert(spec_triple_le(spec_specificity(rest[w]), spec_specificity(s[0])));
            }
        }
        assert forall|i: int, j: int| 0 <= i < j < t.len() implies spec_triple_le(
            spec_specificity(t[j]),
            spec_specificity(t[i]),
        ) by {
            if i == 0 {
                assert(t[j] == t1[j - 1]);
            } else {
                assert(t[i] == t1[i - 1] && t[j] == t1[j - 1]);
            }
        }
    } else {
        let t = spec_insert_desc(s, x);
        assert(t == seq![x] + s);
        assert forall|i: int, j: int| 0 <= i < j < t.len() implies spec_triple_le(
            spec_specificity(t[j]),
            spec_specificity(t[i]),
        ) by {
            if i == 0 {
                assert(t[j] == s[j - 1]);
                if j > 1 {
                    assert(spec_triple_le(
                        spec_specificity(s[j - 1]),
                        spec_specificity(s[0]),
                    ));
                }
            } else {
                assert(t[i] == s[i - 1] && t[j] == s[j - 1]);
            }
        }
    }
}

/// The pre-sort invariant: after parsing, a rule's selectors stand in
/// descending order of specificity, so the first selector that matches
/// an element is one of the highest matching specificity.
pub proof fn lemma_sort_desc_sorted(s: Seq<SelectorView>)
    ensures
        spec_sorted_desc(spec_sort_desc(s)),
    decreases s.len(),
{
    if s.len() > 0 {
        lemma_sort_desc_sorted(s.drop_last());
        lemma_insert_desc_sorted(spec_sort_desc(s.drop_last()), s.last());
    }
}

/// Specificity ordering: a selector with an id outranks any without one,
/// a selector with a class but no id outranks any with neither, whatever
/// their other parts.  The order is lexicographic on the
/// `(id, class, tag)` counts, as `spec_triple_lt` spells out.
pub proof fn lemma_specificity_ordering(
    id_sel: SelectorView,
    class_sel: SelectorView,
    tag_sel: SelectorView,
)
    requires
        id_sel.id is Some,
        class_sel.id is None,
        class_sel.class.len() > 0,
        tag_sel.id is None,
        tag_sel.class.len() == 0,
    ensures
        spec_triple_lt(spec_specificity(class_sel), spec_specificity(id_sel)),
        spec_triple_lt(spec_specificity(tag_sel), spec_specificity(class_sel)),
{
}

/// Sorts a selector list descending by specificity, stably.
fn sort_selectors(v: Vec<Selector>) -> (r: Vec<Selector>)
    ensures
        sel_views(r@) == spec_sort_desc(sel_views(v@)),
    decreases v@.len(),
{
    let mut v = v;
    if v.len() == 0 {
        proof {
            assert(sel_views(v@) =~= Seq::<SelectorView>::empty());
        }
        v
    } else {
        let ghost whole = v@;
        let x = v.pop().unwrap();
        proof {
            assert(v@ =~= whole.drop_last());
            assert(sel_views(whole).drop_last() =~= sel_views(whole.drop_last()));
            assert(x@ == sel_views(whole).last());
        }
        let mut sorted = sort_selectors(v);
        insert_selector_desc(&mut sorted, x);
        sorted
    }
}

impl Parser {
    /// A color channel from one hex digit, or from a high and a low digit.
    fn hex_to_dec(&self, c1: &char, c2: Option<&char>) -> (r: u8)
        ensures
            r as int == spec_channel(*c1, match c2 {
                Option::Some(c) => Option::Some(*c),
                Option::None => Option::None,
            }),
    {
        let n1 = hex(c1);
        if let Some(c2) = c2 {
            n1 * 16 + hex(c2)
        } else {
            ((n1 as u32) * 255 / 15) as u8
        }
    }

    /// Parses a color literal; the cursor must rest on `#`.
    fn parse_color(&mut self) -> (r: Result<Value, CssError>)
        requires
            old(self).wf(),
            old(self).at() < old(self).text().len(),
            old(self).text()[old(self).at()] == '#',
        ensures
            final(self).wf(),
            final(self).text() == old(self).text(),
            match r {
                Ok(v) => spec_parse_color(old(self).text(), old(self).at()) == Ok::<_, (CssErrorKind, int)>((v@, final(self).at())),
                Err(e) => spec_parse_color(old(self).text(), old(self).at()) == Err::<(ValueView, int), _>((e.kind, e.pos as int)),
            },
    {
        let ghost i = self.at();
        self.consume_char();
        let start = self.consume_class(CharClass::HexDigit);
        proof {
            lemma_scan_end(self.text(), i + 1, CharClass::HexDigit);
        }
        if self.eof() {
            return Err(CssError { kind: CssErrorKind::UnexpectedEnd, pos: self.pos });
        }
        let n = self.pos - start;
        let text = self.input.as_str();
        if n == 3 {
            let c0 = text.get_char(start);
            let c1 = text.get_char(start + 1);
            let c2 = text.get_char(start + 2);
            Ok(Value::ColorValue(Color {
                r: self.hex_to_dec(&c0, None),
                g: self.hex_to_dec(&c1, None),
                b: self.hex_to_dec(&c2, None),
                a: 255,
            }))
        } else if n == 4 {
            let c0 = text.get_char(start);
            let c1 = text.get_char(start + 1);
            let c2 = text.get_char(start + 2);
            let c3 = text.get_char(start + 3);
            Ok(Value::ColorValue(Color {
                r: self.hex_to_dec(&c0, None),
                g: self.hex_to_dec(&c1, None),
                b: self.hex_to_dec(&c2, None),
                a: self.hex_to_dec(&c3, None),
            }))
        } else if n == 6 {
            let c0 = text.get_char(start);
            let c1 = text.get_char(start + 1);
            let c2 = text.get_char(start + 2);
            let c3 = text.get_char(start + 3);
            let c4 = text.get_char(start + 4);
            let c5 = text.get_char(start + 5);
            Ok(Value::ColorValue(Color {
                r: self.hex_to_dec(&c0, Some(&c1)),
                g: self.hex_to_dec(&c2, Some(&c3)),
                b: self.hex_to_dec(&c4, Some(&c5)),
                a: 255,
            }))
        } else if n == 8 {
            let c0 = text.get_char(start);
            let c1 = text.get_char(start + 1);
            let c2 = text.get_char(start + 2);
            let c3 = text.get_char(start + 3);
            let c4 = text.get_char(start + 4);
            let c5 = text.get_char(start + 5);
            let c6 = text.get_char(start + 6);
            let c7 = text.get_char(start + 7);
            Ok(Value::ColorValue(Color {
                r: self.hex_to_dec(&c0, Some(&c1)),
                g: self.hex_to_dec(&c2, Some(&c3)),
                b: self.hex_to_dec(&c4, Some(&c5)),
                a: self.hex_to_dec(&c6, Some(&c7)),
            }))
        } else {
            Err(CssError { kind: CssErrorKind::BadHexColor, pos: start - 1 })
        }
    }

    /// Parses a length: a decimal literal followed by a known unit.
    fn parse_num(&mut self) -> (r: Result<Value, CssError>)
        requires
            old(self).wf(),
        ensures
            final(self).wf(),
            final(self).text() == old(self).text(),
            match r {
                Ok(v) => spec_parse_num(old(self).text(), old(self).at()) == Ok::<_, (CssErrorKind, int)>((v@, final(self).at())),
                Err(e) => spec_parse_num(old(self).text(), old(self).at()) == Err::<(ValueView, int), _>((e.kind, e.pos as int)),
            },
    {
        let start = self.consume_class(CharClass::NumToken);
        proof {
            lemma_scan_end(self.text(), start as int, CharClass::NumToken);
        }
        let sub = self.input.as_str().substring_char(start, self.pos);
        if !is_decimal_token(sub) {
            return Err(CssError { kind: CssErrorKind::BadNumber, pos: start });
        }
        let tok = String::from_str(sub);
        let unit_pos = self.pos;
        let unit = self.parse_identifier();
        let px = String::from_str("px");
        proof {
            reveal_strlit("px");
            assert(px@ =~= spec_px());
        }
        if unit.eq(&px) {
            Ok(Value::Length(tok, Unit::Px))
        } else {
            Err(CssError { kind: CssErrorKind::UnknownUnit, pos: unit_pos })
        }
    }

    /// Parses one simple selector: any run of `#id`, `.class`, `*` and tag
    /// identifiers, stopping at the first character that starts none of
    /// them.
    fn parse_simple_selector(&mut self) -> (r: SimpleSelector)
        requires
            old(self).wf(),
        ensures
            final(self).wf(),
            final(self).text() == old(self).text(),
            (r@, final(self).at()) == spec_parse_simple_selector(
                old(self).text(),
                old(self).at(),
                spec_empty_selector(),
            ),
    {
        let ghost text0 = self.text();
        let ghost pos0 = self.at();
        let mut selector = SimpleSelector { tag_name: None, id: None, class: Vec::new() };
        proof {
            assert(selector@ =~= spec_empty_selector());
        }
        loop
            invariant
                self.wf(),
                self.text() == text0,
                spec_parse_simple_selector(text0, pos0, spec_empty_selector())
                    == spec_parse_simple_selector(text0, self.at(), selector@),
            ensures
                self.wf(),
                self.text() == text0,
                (selector@, self.at()) == spec_parse_simple_selector(
                    text0,
                    pos0,
                    spec_empty_selector(),
                ),
            decreases self.len - self.pos,
        {
            if self.eof() {
                break;
            }
            let c = self.next_char();
            let ghost sel0 = selector@;
            let ghost at0 = self.at();
            if c == '#' {
                self.consume_char();
                let word = self.parse_identifier();
                selector.id = Some(word);
            } else if c == '.' {
                self.consume_char();
                let ghost cls0 = selector.class@;
                let word = self.parse_identifier();
                selector.class.push(word);
                proof {
                    assert(str_views(selector.class@) =~= str_views(cls0).push(
                        selector.class@.last()@,
                    ));
                }
            } else if c == '*' {
                self.consume_char();
            } else if valid_identifier_char(c) {
                proof {
                    lemma_scan_end(text0, at0 + 1, CharClass::Ident);
                }
                let word = self.parse_identifier();
                selector.tag_name = Some(word);
            } else {
                break;
            }
        }
        selector
    }

    /// Parses the comma-separated selector list before a block, in source
    /// order; the caller sorts it.
    fn parse_selectors_raw(&mut self) -> (r: Result<Vec<Selector>, CssError>)
        requires
            old(self).wf(),
        ensures
            final(self).wf(),
            final(self).text() == old(self).text(),
            match r {
                Ok(v) => spec_parse_selectors(old(self).text(), old(self).at())
                    == Ok::<_, (CssErrorKind, int)>((sel_views(v@), final(self).at())),
                Err(e) => spec_parse_selectors(old(self).text(), old(self).at())
                    == Err::<(Seq<SelectorView>, int), _>((e.kind, e.pos as int)),
            },
        decreases old(self).text().len() - old(self).at(),
    {
        let ghost text0 = self.text();
        let ghost pos0 = self.at();
        let sel = self.parse_simple_selector();
        proof {
            lemma_parse_simple_selector_bounds(text0, pos0, spec_empty_selector());
            lemma_scan_end(text0, self.at(), CharClass::Ws);
        }
        self.consume_whitespace();
        if self.eof() {
            return Err(CssError { kind: CssErrorKind::UnexpectedEnd, pos: self.pos });
        }
        let c = self.next_char();
        if c == ',' {
            self.consume_char();
            self.consume_whitespace();
            match self.parse_selectors_raw() {
                Ok(mut rest) => {
                    let ghost rest0 = rest@;
                    rest.insert(0, Selector::Simple(sel));
                    proof {
                        assert(sel_views(rest@) =~= seq![sel@] + sel_views(rest0));
                    }
                    Ok(rest)
                },
                Err(e) => Err(e),
            }
        } else if c == '{' {
            let mut v: Vec<Selector> = Vec::new();
            v.push(Selector::Simple(sel));
            proof {
                assert(sel_views(v@) =~= seq![sel@]);
            }
            Ok(v)
        } else {
            Err(CssError { kind: CssErrorKind::UnexpectedChar(c), pos: self.pos })
        }
    }

    /// Parses the selector list of a rule and sorts it descending by
    /// specificity, stably.
    fn parse_selectors(&mut self) -> (r: Result<Vec<Selector>, CssError>)
        requires
            old(self).wf(),
        ensures
            final(self).wf(),
            final(self).text() == old(self).text(),
            match r {
                Ok(v) => match spec_parse_selectors(old(self).text(), old(self).at()) {
                    Ok((sels, j)) => sel_views(v@) == spec_sort_desc(sels) && final(self).at()
                        == j,
                    Err(_) => false,
                },
                Err(e) => spec_parse_selectors(old(self).text(), old(self).at())
                    == Err::<(Seq<SelectorView>, int), _>((e.kind, e.pos as int)),
            },
    {
        match self.parse_selectors_raw() {
            Ok(v) => Ok(sort_selectors(v)),
            Err(e) => Err(e),
        }
    }

    /// Parses one `name: value;` declaration.
    fn parse_declaration(&mut self) -> (r: Result<Declaration, CssError>)
        requires
            old(self).wf(),
        ensures
            final(self).wf(),
            final(self).text() == old(self).text(),
            match r {
                Ok(d) => spec_parse_declaration(old(self).text(), old(self).at())
                    == Ok::<_, (CssErrorKind, int)>((d@, final(self).at())),
                Err(e) => spec_parse_declaration(old(self).text(), old(self).at())
                    == Err::<(DeclarationView, int), _>((e.kind, e.pos as int)),
            },
    {
        let name = self.parse_identifier();
        self.consume_whitespace();
        if self.eof() {
            return Err(CssError { kind: CssErrorKind::UnexpectedEnd, pos: self.pos });
        }
        let p = self.pos;
        let c = self.consume_char();
        if c != ':' {
            return Err(CssError { kind: CssErrorKind::UnexpectedChar(c), pos: p });
        }
        self.consume_whitespace();
        let value = match self.parse_value() {
            Ok(v) => v,
            Err(e) => {
                return Err(e);
            },
        };
        self.consume_whitespace();
        if self.eof() {
            return Err(CssError { kind: CssErrorKind::UnexpectedEnd, pos: self.pos });
        }
        let p2 = self.pos;
        let c2 = self.consume_char();
        if c2 != ';' {
            return Err(CssError { kind: CssErrorKind::UnexpectedChar(c2), pos: p2 });
        }
        Ok(Declaration { name, value })
    }

    /// Parses the declarations of a block from its first declaration to
    /// the closing `}`.
    fn parse_decl_list(&mut self) -> (r: Result<Vec<Declaration>, CssError>)
        requires
            old(self).wf(),
        ensures
            final(self).wf(),
            final(self).text() == old(self).text(),
            match r {
                Ok(v) => spec_parse_decl_list(old(self).text(), old(self).at())
                    == Ok::<_, (CssErrorKind, int)>((decl_views(v@), final(self).at())),
                Err(e) => spec_parse_decl_list(old(self).text(), old(self).at())
                    == Err::<(Seq<DeclarationView>, int), _>((e.kind, e.pos as int)),
            },
        decreases old(self).text().len() - old(self).at(),
    {
        let ghost text0 = self.text();
        let ghost pos0 = self.at();
        let d = match self.parse_declaration() {
            Ok(d) => d,
            Err(e) => {
                return Err(e);
            },
        };
        proof {
            lemma_parse_declaration_bounds(text0, pos0);
        }
        self.consume_whitespace();
        if self.eof() {
            return Err(CssError { kind: CssErrorKind::UnexpectedEnd, pos: self.pos });
        }
        let c = self.next_char();
        if c == '}' {
            self.consume_char();
            let mut v: Vec<Declaration> = Vec::new();
            v.push(d);
            proof {
                assert(decl_views(v@) =~= seq![d@]);
            }
            Ok(v)
        } else {
            match self.parse_decl_list() {
                Ok(mut rest) => {
                    let ghost rest0 = rest@;
                    rest.insert(0, d);
                    proof {
                        assert(decl_views(rest@) =~= seq![d@] + decl_views(rest0));
                    }
                    Ok(rest)
                },
                Err(e) => Err(e),
            }
        }
    }

    /// Parses a declaration block, braces included.
    fn parse_declarations(&mut self) -> (r: Result<Vec<Declaration>, CssError>)
        requires
            old(self).wf(),
        ensures
            final(self).wf(),
            final(self).text() == old(self).text(),
            match r {
                Ok(v) => spec_parse_declarations(old(self).text(), old(self).at())
                    == Ok::<_, (CssErrorKind, int)>((decl_views(v@), final(self).at())),
                Err(e) => spec_parse_declarations(old(self).text(), old(self).at())
                    == Err::<(Seq<DeclarationView>, int), _>((e.kind, e.pos as int)),
            },
    {
        if self.eof() {
            return Err(CssError { kind: CssErrorKind::UnexpectedEnd, pos: self.pos });
        }
        let p = self.pos;
        let c = self.consume_char();
        if c != '{' {
            return Err(CssError { kind: CssErrorKind::UnexpectedChar(c), pos: p });
        }
        self.consume_whitespace();
        if self.eof() {
            return Err(CssError { kind: CssErrorKind::UnexpectedEnd, pos: self.pos });
        }
        if self.next_char() == '}' {
            self.consume_char();
            let v: Vec<Declaration> = Vec::new();
            proof {
                assert(decl_views(v@) =~= Seq::<DeclarationView>::empty());
            }
            return Ok(v);
        }
        self.parse_decl_list()
    }

    /// Parses one rule: a selector list and its declaration block.
    fn parse_rule(&mut self) -> (r: Result<Rule, CssError>)
        requires
            old(self).wf(),
        ensures
            final(self).wf(),
            final(self).text() == old(self).text(),
            match r {
                Ok(rule) => spec_parse_rule(old(self).text(), old(self).at())
                    == Ok::<_, (CssErrorKind, int)>((rule@, final(self).at())),
                Err(e) => spec_parse_rule(old(self).text(), old(self).at())
                    == Err::<(RuleView, int), _>((e.kind, e.pos as int)),
            },
    {
        let selectors = match self.parse_selectors() {
            Ok(v) => v,
            Err(e) => {
                return Err(e);
            },
        };
        let declarations = match self.parse_declarations() {
            Ok(v) => v,
            Err(e) => {
                return Err(e);
            },
        };
        Ok(Rule { selectors, declarations })
    }

    /// Parses rules separated by whitespace until the end of the input.
    fn parse_rules(&mut self) -> (r: Result<Vec<Rule>, CssError>)
        requires
            old(self).wf(),
        ensures
            final(self).wf(),
            final(self).text() == old(self).text(),
            match r {
                Ok(v) => spec_parse_rules(old(self).text(), old(self).at())
                    == Ok::<_, (CssErrorKind, int)>((rule_views(v@), final(self).at())),
                Err(e) => spec_parse_rules(old(self).text(), old(self).at())
                    == Err::<(Seq<RuleView>, int), _>((e.kind, e.pos as int)),
            },
        decreases old(self).text().len() - old(self).at(),
    {
        let ghost text0 = self.text();
        let ghost pos0 = self.at();
        if self.eof() {
            let v: Vec<Rule> = Vec::new();
            proof {
                assert(rule_views(v@) =~= Seq::<RuleView>::empty());
            }
            return Ok(v);
        }
        let rule = match self.parse_rule() {
            Ok(rule) => rule,
            Err(e) => {
                return Err(e);
            },
        };
        proof {
            lemma_parse_rule_bounds(text0, pos0);
        }
        self.consume_whitespace();
        match self.parse_rules() {
            Ok(mut rest) => {
                let ghost rest0 = rest@;
                rest.insert(0, rule);
                proof {
                    assert(rule_views(rest@) =~= seq![rule@] + rule_views(rest0));
                }
                Ok(rest)
            },
            Err(e) => Err(e),
        }
    }

    /// Parses CSS text into a stylesheet.  The whole input is consumed;
    /// the first malformed construct is returned as the error, with the
    /// character position it was found at.
    pub fn parse(input: &str) -> (r: Result<StyleSheet, CssError>)
        ensures
            match r {
                Ok(sheet) => spec_parse(input@) == Ok::<_, (CssErrorKind, int)>(sheet@),
                Err(e) => spec_parse(input@) == Err::<Seq<RuleView>, _>((e.kind, e.pos as int)),
            },
    {
        let len = input.unicode_len();
        let mut parser = Parser { pos: 0, input: String::from_str(input), len };
        parser.consume_whitespace();
        match parser.parse_rules() {
            Ok(rules) => Ok(StyleSheet { rules }),
            Err(e) => Err(e),
        }
    }

    /// Parses a value, dispatching on the first character.
    fn parse_value(&mut self) -> (r: Result<Value, CssError>)
        requires
            old(self).wf(),
        ensures
            final(self).wf(),
            final(self).text() == old(self).text(),
            match r {
                Ok(v) => spec_parse_value(old(self).text(), old(self).at()) == Ok::<_, (CssErrorKind, int)>((v@, final(self).at())),
                Err(e) => spec_parse_value(old(self).text(), old(self).at()) == Err::<(ValueView, int), _>((e.kind, e.pos as int)),
            },
    {
        if self.eof() {
            return Err(CssError { kind: CssErrorKind::UnexpectedEnd, pos: self.pos });
        }
        let c = self.next_char();
        if c == '#' {
            self.parse_color()
        } else if is_digit_char(c) || c == '-' || c == '+' {
            self.parse_num()
        } else {
            let word = self.parse_identifier();
            Ok(Value::Keyword(word))
        }
    }
}

} // verus!

