//! Concrete syntax of the board format, and the tokenizer / recursive-descent
//! parser that turns text into a tree of syntax nodes.
use vstd::prelude::*;

verus! {

/// A class of characters that a run of the scanner consumes.
#[derive(Clone, Copy, PartialEq, Eq, Structural, Debug)]
pub enum CharClass {
    /// Letters, digits and `_`: the tail of an identifier.
    IdentTail,
    /// Decimal digits.
    Digit,
    /// Anything but a double quote: the body of a string literal.
    NotQuote,
    /// Anything but a line feed: the body of a line comment.
    NotNewline,
}

pub open spec fn is_letter(c: char) -> bool {
    ('a' <= c && c <= 'z') || ('A' <= c && c <= 'Z')
}

pub open spec fn is_digit(c: char) -> bool {
    '0' <= c && c <= '9'
}

pub open spec fn is_space(c: char) -> bool {
    c == ' ' || c == '\t' || c == '\n' || c == '\r'
}

pub open spec fn in_class(k: CharClass, c: char) -> bool {
    match k {
        CharClass::IdentTail => is_letter(c) || is_digit(c) || c == '_',
        CharClass::Digit => is_digit(c),
        CharClass::NotQuote => c != '"',
        CharClass::NotNewline => c != '\n',
    }
}

/// The end of the longest run of class `k` that starts at `i`.
pub open spec fn scan(s: Seq<char>, i: int, k: CharClass) -> int
    decreases s.len() - i,
{
    if 0 <= i < s.len() && in_class(k, s[i]) {
        scan(s, i + 1, k)
    } else {
        i
    }
}

pub proof fn lemma_scan(s: Seq<char>, i: int, k: CharClass)
    requires
        0 <= i <= s.len(),
    ensures
        i <= scan(s, i, k) <= s.len(),
        scan(s, i, k) == s.len() || !in_class(k, s[scan(s, i, k)]),
        forall|j: int| i <= j < scan(s, i, k) ==> in_class(k, #[trigger] s[j]),
    decreases s.len() - i,
{
    if i < s.len() && in_class(k, s[i]) {
        lemma_scan(s, i + 1, k);
    }
}

/// The first position at or after `i` that is not whitespace or inside a `//`
/// line comment.
pub open spec fn skip(s: Seq<char>, i: int) -> int
    decreases s.len() - i,
{
    if 0 <= i < s.len() && is_space(s[i]) {
        skip(s, i + 1)
    } else if 0 <= i && i + 1 < s.len() && s[i] == '/' && s[i + 1] == '/' {
        proof {
            lemma_scan(s, i + 2, CharClass::NotNewline);
        }
        skip(s, scan(s, i + 2, CharClass::NotNewline))
    } else {
        i
    }
}

pub proof fn lemma_skip(s: Seq<char>, i: int)
    requires
        0 <= i <= s.len(),
    ensures
        i <= skip(s, i) <= s.len(),
    decreases s.len() - i,
{
    if i < s.len() && is_space(s[i]) {
        lemma_skip(s, i + 1);
    } else if i + 1 < s.len() && s[i] == '/' && s[i + 1] == '/' {
        lemma_scan(s, i + 2, CharClass::NotNewline);
        lemma_skip(s, scan(s, i + 2, CharClass::NotNewline));
    }
}

fn char_in_class(k: CharClass, c: char) -> (r: bool)
    ensures
        r == in_class(k, c),
{
    match k {
        CharClass::IdentTail => ('a' <= c && c <= 'z') || ('A' <= c && c <= 'Z') || ('0' <= c
            && c <= '9') || c == '_',
        CharClass::Digit => '0' <= c && c <= '9',
        CharClass::NotQuote => c != '"',
        CharClass::NotNewline => c != '\n',
    }
}

fn scan_exec(s: &Vec<char>, i: usize, k: CharClass) -> (r: usize)
    requires
        i <= s@.len(),
    ensures
        r == scan(s@, i as int, k),
{
    let mut j: usize = i;
    while j < s.len() && char_in_class(k, s[j])
        invariant
            i <= j <= s@.len(),
            scan(s@, j as int, k) == scan(s@, i as int, k),
        decreases s@.len() - j,
    {
        j = j + 1;
    }
    j
}

fn skip_exec(s: &Vec<char>, i: usize) -> (r: usize)
    requires
        i <= s@.len(),
    ensures
        r == skip(s@, i as int),
{
    let mut j: usize = i;
    loop
        invariant
            i <= j <= s@.len(),
            skip(s@, j as int) == skip(s@, i as int),
        decreases s@.len() - j,
    {
        if j < s.len() && (s[j] == ' ' || s[j] == '\t' || s[j] == '\n' || s[j] == '\r') {
            j = j + 1;
        } else if s.len() - j >= 2 && s[j] == '/' && s[j + 1] == '/' {
            proof {
                lemma_scan(s@, j + 2, CharClass::NotNewline);
            }
            j = scan_exec(s, j + 2, CharClass::NotNewline);
        } else {
            return j;
        }
    }
}

/// A half-open range `[start, end)` of character positions in the source text.
#[derive(Clone, Copy, PartialEq, Eq, Structural, Debug)]
pub struct Span {
    pub start: usize,
    pub end: usize,
}

/// What the parser expected to find where it stopped.
#[derive(Clone, Copy, PartialEq, Eq, Structural, Debug)]
pub enum Expected {
    /// An identifier that starts an assignment, or the keyword `folder`.
    Item,
    /// `=` after the identifier of an assignment.
    Equals,
    /// A quoted string or a number as the value of an assignment.
    Value,
    /// A quoted string.
    QuotedString,
    /// The `"` that closes a string opened here.
    ClosingQuote,
    /// `(` before a folder's mode.
    OpenParen,
    /// An identifier naming a folder's mode.
    Mode,
    /// `)` after a folder's mode.
    CloseParen,
    /// Another button label, or the `;` that ends a folder.
    ButtonOrSemicolon,
}

pub open spec fn expected_message(e: Expected) -> Seq<char> {
    match e {
        Expected::Item => "an identifier or `folder`"@,
        Expected::Equals => "`=` after identifier"@,
        Expected::Value => "a quoted string or a number"@,
        Expected::QuotedString => "a quoted string"@,
        Expected::ClosingQuote => "a closing `\"`"@,
        Expected::OpenParen => "`(` before the folder mode"@,
        Expected::Mode => "a folder mode"@,
        Expected::CloseParen => "`)` after the folder mode"@,
        Expected::ButtonOrSemicolon => "a quoted button label or `;`"@,
    }
}

impl Expected {
    /// A human-readable account of what was expected.
    pub fn message(&self) -> (r: &'static str)
        ensures
            r@ == expected_message(*self),
    {
        match self {
            Expected::Item => "an identifier or `folder`",
            Expected::Equals => "`=` after identifier",
            Expected::Value => "a quoted string or a number",
            Expected::QuotedString => "a quoted string",
            Expected::ClosingQuote => "a closing `\"`",
            Expected::OpenParen => "`(` before the folder mode",
            Expected::Mode => "a folder mode",
            Expected::CloseParen => "`)` after the folder mode",
            Expected::ButtonOrSemicolon => "a quoted button label or `;`",
        }
    }
}

/// The first point where the text leaves the grammar, and what was expected there.
#[derive(Clone, Copy, PartialEq, Eq, Structural, Debug)]
pub struct SyntaxError {
    /// Character offset into the text.
    pub position: usize,
    pub expected: Expected,
}

/// A top-level syntax node, as the contracts see it.
pub enum NodeModel {
    Assignment { key: Span, value: Span },
    Folder { name: Span, mode: Span, buttons: Seq<Span> },
}

/// A top-level syntax node: spans of the source text.
#[derive(Debug)]
pub enum Node {
    /// `key = value`; the value span holds a string's body or a number's digits.
    Assignment { key: Span, value: Span },
    /// `folder "name" (mode) "b1" "b2" ... ;`; string spans exclude the quotes.
    Folder { name: Span, mode: Span, buttons: Vec<Span> },
}

impl View for Node {
    type V = NodeModel;

    open spec fn view(&self) -> NodeModel {
        match self {
            Node::Assignment { key, value } => NodeModel::Assignment { key: *key, value: *value },
            Node::Folder { name, mode, buttons } => NodeModel::Folder {
                name: *name,
                mode: *mode,
                buttons: buttons@,
            },
        }
    }
}

pub open spec fn nodes_view(v: Seq<Node>) -> Seq<NodeModel> {
    v.map_values(|n: Node| n@)
}

pub open spec fn span(a: int, b: int) -> Span {
    Span { start: a as usize, end: b as usize }
}

pub open spec fn fail<T>(p: int, e: Expected) -> Result<T, SyntaxError> {
    Err(SyntaxError { position: p as usize, expected: e })
}

pub open spec fn valid_span(s: Seq<char>, sp: Span) -> bool {
    sp.start <= sp.end <= s.len()
}

/// Each span ends before the next one starts: the spans are in source order.
pub open spec fn spans_ordered(bs: Seq<Span>) -> bool {
    forall|j: int, l: int| 0 <= j < l < bs.len() ==> #[trigger] bs[j].end < #[trigger] bs[l].start
}

pub open spec fn valid_node(s: Seq<char>, n: NodeModel) -> bool {
    match n {
        NodeModel::Assignment { key, value } => valid_span(s, key) && valid_span(s, value),
        NodeModel::Folder { name, mode, buttons } => valid_span(s, name) && valid_span(s, mode)
            && (forall|j: int| 0 <= j < buttons.len() ==> valid_span(s, #[trigger] buttons[j]))
            && spans_ordered(buttons),
    }
}

/// A quoted string at `p`: the span of its body and the position after it.
pub open spec fn string_at(s: Seq<char>, p: int) -> Result<(Span, usize), SyntaxError> {
    if 0 <= p < s.len() && s[p] == '"' {
        let c = scan(s, p + 1, CharClass::NotQuote);
        if c < s.len() {
            Ok((span(p + 1, c), (c + 1) as usize))
        } else {
            fail(p, Expected::ClosingQuote)
        }
    } else {
        fail(p, Expected::QuotedString)
    }
}

/// The value of an assignment at `p`: a quoted string or a run of digits.
pub open spec fn value_at(s: Seq<char>, p: int) -> Result<(Span, usize), SyntaxError> {
    if 0 <= p < s.len() && is_digit(s[p]) {
        let d = scan(s, p + 1, CharClass::Digit);
        Ok((span(p, d), d as usize))
    } else if 0 <= p < s.len() && s[p] == '"' {
        string_at(s, p)
    } else {
        fail(p, Expected::Value)
    }
}

pub proof fn lemma_string_at(s: Seq<char>, p: int)
    requires
        s.len() <= usize::MAX,
    ensures
        string_at(s, p) matches Ok((sp, q)) ==> 0 <= p < q <= s.len() && valid_span(s, sp)
            && sp.start == p + 1 && sp.end + 1 == q,
{
    if 0 <= p < s.len() && s[p] == '"' {
        lemma_scan(s, p + 1, CharClass::NotQuote);
    }
}

pub proof fn lemma_value_at(s: Seq<char>, p: int)
    requires
        s.len() <= usize::MAX,
    ensures
        value_at(s, p) matches Ok((sp, q)) ==> 0 <= p < q <= s.len() && valid_span(s, sp),
{
    lemma_string_at(s, p);
    if 0 <= p < s.len() && is_digit(s[p]) {
        lemma_scan(s, p + 1, CharClass::Digit);
    }
}

/// Button labels from `i` up to and including the `;` that ends a folder.
pub open spec fn buttons_from(s: Seq<char>, i: int) -> Result<(Seq<Span>, usize), SyntaxError>
    decreases s.len() - i
        when s.len() <= usize::MAX

{
    let p = skip(s, i);
    if 0 <= p < s.len() && s[p] == ';' {
        Ok((seq![], (p + 1) as usize))
    } else if 0 <= p < s.len() && s[p] == '"' {
        match string_at(s, p) {
            Ok((b, q)) => {
                proof {
                    if 0 <= i <= s.len() {
                        lemma_skip(s, i);
                    }
                    lemma_string_at(s, p);
                }
                match buttons_from(s, q as int) {
                    Ok((rest, e)) => Ok((seq![b] + rest, e)),
                    Err(x) => Err(x),
                }
            },
            Err(x) => Err(x),
        }
    } else {
        fail(p, Expected::ButtonOrSemicolon)
    }
}

pub proof fn lemma_buttons_from(s: Seq<char>, i: int)
    requires
        s.len() <= usize::MAX,
        0 <= i <= s.len(),
    ensures
        buttons_from(s, i) matches Ok((bs, e)) ==> i < e <= s.len() && (forall|j: int|
            0 <= j < bs.len() ==> valid_span(s, #[trigger] bs[j]) && i < bs[j].start && bs[j].end
                < e) && spans_ordered(bs),
    decreases s.len() - i,
{
    lemma_skip(s, i);
    let p = skip(s, i);
    if 0 <= p < s.len() && s[p] == ';' {
    } else if 0 <= p < s.len() && s[p] == '"' {
        lemma_string_at(s, p);
        if let Ok((b, q)) = string_at(s, p) {
            lemma_buttons_from(s, q as int);
            if let Ok((rest, e)) = buttons_from(s, q as int) {
                let bs = seq![b] + rest;
                assert forall|j: int| 0 <= j < bs.len() implies valid_span(s, #[trigger] bs[j])
                    && i < bs[j].start && bs[j].end < e by {
                    if j > 0 {
                        assert(bs[j] == rest[j - 1]);
                    }
                }
                assert forall|j: int, l: int| 0 <= j < l < bs.len() implies #[trigger] bs[j].end
                    < #[trigger] bs[l].start by {
                    assert(bs[l] == rest[l - 1]);
                    if j > 0 {
                        assert(bs[j] == rest[j - 1]);
                    }
                }
            }
        }
    }
}

pub open spec fn folder_keyword() -> Seq<char> {
    seq!['f', 'o', 'l', 'd', 'e', 'r']
}

/// The rest of a folder declaration, after its keyword, which ends at `i`.
pub open spec fn folder_rest(s: Seq<char>, i: int) -> Result<(NodeModel, usize), SyntaxError> {
    match string_at(s, skip(s, i)) {
        Err(x) => Err(x),
        Ok((name, a)) => {
            let b = skip(s, a as int);
            if !(0 <= b < s.len() && s[b] == '(') {
                fail(b, Expected::OpenParen)
            } else {
                let m = skip(s, b + 1);
                if !(0 <= m < s.len() && is_letter(s[m])) {
                    fail(m, Expected::Mode)
                } else {
                    let me = scan(s, m + 1, CharClass::IdentTail);
                    let r = skip(s, me);
                    if !(0 <= r < s.len() && s[r] == ')') {
                        fail(r, Expected::CloseParen)
                    } else {
                        match string_at(s, skip(s, r + 1)) {
                            Err(x) => Err(x),
                            Ok((first, g)) => match buttons_from(s, g as int) {
                                Err(x) => Err(x),
                                Ok((rest, e)) => Ok(
                                    (
                                        NodeModel::Folder {
                                            name,
                                            mode: span(m, me),
                                            buttons: seq![first] + rest,
                                        },
                                        e,
                                    ),
                                ),
                            },
                        }
                    }
                }
            }
        },
    }
}

/// One top-level item starting at `p`: an assignment or a folder declaration.
pub open spec fn item_at(s: Seq<char>, p: int) -> Result<(NodeModel, usize), SyntaxError> {
    if !(0 <= p < s.len() && is_letter(s[p])) {
        fail(p, Expected::Item)
    } else {
        let e = scan(s, p + 1, CharClass::IdentTail);
        let q = skip(s, e);
        if 0 <= q < s.len() && s[q] == '=' {
            match value_at(s, skip(s, q + 1)) {
                Ok((v, r)) => Ok((NodeModel::Assignment { key: span(p, e), value: v }, r)),
                Err(x) => Err(x),
            }
        } else if s.subrange(p, e) == folder_keyword() {
            folder_rest(s, e)
        } else {
            fail(q, Expected::Equals)
        }
    }
}

pub proof fn lemma_folder_rest(s: Seq<char>, i: int)
    requires
        s.len() <= usize::MAX,
        0 <= i <= s.len(),
    ensures
        folder_rest(s, i) matches Ok((n, q)) ==> i < q <= s.len() && valid_node(s, n),
{
    lemma_skip(s, i);
    lemma_string_at(s, skip(s, i));
    if let Ok((name, a)) = string_at(s, skip(s, i)) {
        let b = skip(s, a as int);
        lemma_skip(s, a as int);
        if 0 <= b < s.len() && s[b] == '(' {
            let m = skip(s, b + 1);
            lemma_skip(s, b + 1);
            if 0 <= m < s.len() && is_letter(s[m]) {
                let me = scan(s, m + 1, CharClass::IdentTail);
                lemma_scan(s, m + 1, CharClass::IdentTail);
                let r = skip(s, me);
                lemma_skip(s, me);
                if 0 <= r < s.len() && s[r] == ')' {
                    lemma_skip(s, r + 1);
                    lemma_string_at(s, skip(s, r + 1));
                    if let Ok((first, g)) = string_at(s, skip(s, r + 1)) {
                        lemma_buttons_from(s, g as int);
                        if let Ok((rest, e)) = buttons_from(s, g as int) {
                            let bs = seq![first] + rest;
                            assert forall|j: int| 0 <= j < bs.len() implies valid_span(
                                s,
                                #[trigger] bs[j],
                            ) by {
                                if j > 0 {
                                    assert(bs[j] == rest[j - 1]);
                                }
                            }
                            assert forall|j: int, l: int| 0 <= j < l < bs.len() implies #[trigger] bs[j].end
                                < #[trigger] bs[l].start by {
                                assert(bs[l] == rest[l - 1]);
                                if j > 0 {
                                    assert(bs[j] == rest[j - 1]);
                                }
                            }
                        }
                    }
                }
            }
        }
    }
}

pub proof fn lemma_item_at(s: Seq<char>, p: int)
    requires
        s.len() <= usize::MAX,
    ensures
        item_at(s, p) matches Ok((n, q)) ==> 0 <= p < q <= s.len() && valid_node(s, n),
{
    if 0 <= p < s.len() && is_letter(s[p]) {
        let e = scan(s, p + 1, CharClass::IdentTail);
        lemma_scan(s, p + 1, CharClass::IdentTail);
        let q = skip(s, e);
        lemma_skip(s, e);
        if 0 <= q < s.len() && s[q] == '=' {
            lemma_skip(s, q + 1);
            lemma_value_at(s, skip(s, q + 1));
        } else {
            lemma_folder_rest(s, e);
        }
    }
}

/// The top-level items from position `i` to the end of the text.
pub open spec fn program_from(s: Seq<char>, i: int) -> Result<Seq<NodeModel>, SyntaxError>
    decreases s.len() - i
        when s.len() <= usize::MAX
{
    let p = skip(s, i);
    if !(0 <= p < s.len()) {
        Ok(seq![])
    } else {
        match item_at(s, p) {
            Ok((n, q)) => {
                proof {
                    if 0 <= i <= s.len() {
                        lemma_skip(s, i);
                    }
                    lemma_item_at(s, p);
                }
                match program_from(s, q as int) {
                    Ok(rest) => Ok(seq![n] + rest),
                    Err(x) => Err(x),
                }
            },
            Err(x) => Err(x),
        }
    }
}

/// The parse tree of a whole text: its top-level items in source order.
pub open spec fn program(s: Seq<char>) -> Result<Seq<NodeModel>, SyntaxError> {
    program_from(s, 0)
}

pub proof fn lemma_program_from(s: Seq<char>, i: int)
    requires
        s.len() <= usize::MAX,
        0 <= i <= s.len(),
    ensures
        program_from(s, i) matches Ok(ns) ==> forall|j: int|
            0 <= j < ns.len() ==> valid_node(s, #[trigger] ns[j]),
    decreases s.len() - i,
{
    lemma_skip(s, i);
    let p = skip(s, i);
    if 0 <= p < s.len() {
        lemma_item_at(s, p);
        if let Ok((n, q)) = item_at(s, p) {
            lemma_program_from(s, q as int);
            if let Ok(rest) = program_from(s, q as int) {
                let ns = seq![n] + rest;
                assert forall|j: int| 0 <= j < ns.len() implies valid_node(s, #[trigger] ns[j]) by {
                    if j > 0 {
                        assert(ns[j] == rest[j - 1]);
                    }
                }
            }
        }
    }
}

/// `pre` placed before the spans of a successful result.
pub open spec fn prepend_spans(pre: Seq<Span>, r: Result<(Seq<Span>, usize), SyntaxError>) -> Result<
    (Seq<Span>, usize),
    SyntaxError,
> {
    match r {
        Ok((bs, e)) => Ok((pre + bs, e)),
        Err(x) => Err(x),
    }
}

/// `pre` placed before the nodes of a successful result.
pub open spec fn prepend_nodes(pre: Seq<NodeModel>, r: Result<Seq<NodeModel>, SyntaxError>) -> Result<
    Seq<NodeModel>,
    SyntaxError,
> {
    match r {
        Ok(ns) => Ok(pre + ns),
        Err(x) => Err(x),
    }
}

/// An executable list of button spans agrees with its model.
pub open spec fn spans_agree(
    r: Result<(Vec<Span>, usize), SyntaxError>,
    m: Result<(Seq<Span>, usize), SyntaxError>,
) -> bool {
    match m {
        Ok((bs, e)) => r matches Ok((v, e2)) && v@ == bs && e2 == e,
        Err(x) => r == Err::<(Vec<Span>, usize), SyntaxError>(x),
    }
}

/// An executable item agrees with its model.
pub open spec fn item_agrees(
    r: Result<(Node, usize), SyntaxError>,
    m: Result<(NodeModel, usize), SyntaxError>,
) -> bool {
    match m {
        Ok((n, e)) => r matches Ok((v, e2)) && v@ == n && e2 == e,
        Err(x) => r is Err && r->Err_0 == x,
    }
}

/// An executable parse tree agrees with its model.
pub open spec fn tree_agrees(
    r: Result<Vec<Node>, SyntaxError>,
    m: Result<Seq<NodeModel>, SyntaxError>,
) -> bool {
    match m {
        Ok(ns) => r matches Ok(v) && nodes_view(v@) == ns,
        Err(x) => r is Err && r->Err_0 == x,
    }
}

fn string_exec(s: &Vec<char>, p: usize) -> (r: Result<(Span, usize), SyntaxError>)
    requires
        p <= s@.len(),
    ensures
        r == string_at(s@, p as int),
{
    if p < s.len() && s[p] == '"' {
        proof {
            lemma_scan(s@, p + 1, CharClass::NotQuote);
        }
        let c = scan_exec(s, p + 1, CharClass::NotQuote);
        if c < s.len() {
            Ok((Span { start: p + 1, end: c }, c + 1))
        } else {
            Err(SyntaxError { position: p, expected: Expected::ClosingQuote })
        }
    } else {
        Err(SyntaxError { position: p, expected: Expected::QuotedString })
    }
}

fn value_exec(s: &Vec<char>, p: usize) -> (r: Result<(Span, usize), SyntaxError>)
    requires
        p <= s@.len(),
    ensures
        r == value_at(s@, p as int),
{
    if p < s.len() && '0' <= s[p] && s[p] <= '9' {
        let d = scan_exec(s, p + 1, CharClass::Digit);
        Ok((Span { start: p, end: d }, d))
    } else if p < s.len() && s[p] == '"' {
        string_exec(s, p)
    } else {
        Err(SyntaxError { position: p, expected: Expected::Value })
    }
}

fn buttons_exec(s: &Vec<char>, i: usize) -> (r: Result<(Vec<Span>, usize), SyntaxError>)
    requires
        i <= s@.len(),
    ensures
        spans_agree(r, buttons_from(s@, i as int)),
{
    let mut acc: Vec<Span> = Vec::new();
    let mut j: usize = i;
    proof {
        if let Ok((bs, e)) = buttons_from(s@, i as int) {
            assert(acc@ + bs =~= bs);
        }
    }
    loop
        invariant
            j <= s@.len(),
            buttons_from(s@, i as int) == prepend_spans(acc@, buttons_from(s@, j as int)),
        decreases s@.len() - j,
    {
        proof {
            lemma_skip(s@, j as int);
        }
        let p = skip_exec(s, j);
        if p < s.len() && s[p] == ';' {
            proof {
                assert(acc@ + seq![] =~= acc@);
            }
            return Ok((acc, p + 1));
        } else if p < s.len() && s[p] == '"' {
            proof {
                lemma_string_at(s@, p as int);
            }
            match string_exec(s, p) {
                Ok((b, q)) => {
                    proof {
                        if let Ok((rest, e)) = buttons_from(s@, q as int) {
                            assert(acc@ + (seq![b] + rest) =~= acc@.push(b) + rest);
                        }
                    }
                    acc.push(b);
                    j = q;
                },
                Err(x) => {
                    return Err(x);
                },
            }
        } else {
            return Err(SyntaxError { position: p, expected: Expected::ButtonOrSemicolon });
        }
    }
}

fn folder_rest_exec(s: &Vec<char>, i: usize) -> (r: Result<(Node, usize), SyntaxError>)
    requires
        i <= s@.len(),
    ensures
        item_agrees(r, folder_rest(s@, i as int)),
{
    proof {
        lemma_skip(s@, i as int);
    }
    let (name, a) = match string_exec(s, skip_exec(s, i)) {
        Ok(x) => x,
        Err(x) => {
            return Err(x);
        },
    };
    proof {
        assert(s.len() == s@.len());
        lemma_string_at(s@, skip(s@, i as int));
        lemma_skip(s@, a as int);
    }
    let b = skip_exec(s, a);
    if !(b < s.len() && s[b] == '(') {
        return Err(SyntaxError { position: b, expected: Expected::OpenParen });
    }
    proof {
        lemma_skip(s@, b + 1);
    }
    let m = skip_exec(s, b + 1);
    if !(m < s.len() && (('a' <= s[m] && s[m] <= 'z') || ('A' <= s[m] && s[m] <= 'Z'))) {
        return Err(SyntaxError { position: m, expected: Expected::Mode });
    }
    proof {
        lemma_scan(s@, m + 1, CharClass::IdentTail);
    }
    let me = scan_exec(s, m + 1, CharClass::IdentTail);
    proof {
        lemma_skip(s@, me as int);
    }
    let r = skip_exec(s, me);
    if !(r < s.len() && s[r] == ')') {
        return Err(SyntaxError { position: r, expected: Expected::CloseParen });
    }
    proof {
        lemma_skip(s@, r + 1);
    }
    let (first, g) = match string_exec(s, skip_exec(s, r + 1)) {
        Ok(x) => x,
        Err(x) => {
            return Err(x);
        },
    };
    proof {
        lemma_string_at(s@, skip(s@, r + 1));
    }
    match buttons_exec(s, g) {
        Ok((rest, e)) => {
            let mut buttons: Vec<Span> = Vec::new();
            buttons.push(first);
            let ghost tail_view = rest@;
            let mut tail = rest;
            buttons.append(&mut tail);
            proof {
                assert(buttons@ =~= seq![first] + tail_view);
            }
            Ok((Node::Folder { name, mode: Span { start: m, end: me }, buttons }, e))
        },
        Err(x) => Err(x),
    }
}

fn is_folder_keyword(s: &Vec<char>, p: usize, e: usize) -> (r: bool)
    requires
        p <= e <= s@.len(),
    ensures
        r == (s@.subrange(p as int, e as int) == folder_keyword()),
{
    let r = e - p == 6 && s[p] == 'f' && s[p + 1] == 'o' && s[p + 2] == 'l' && s[p + 3] == 'd'
        && s[p + 4] == 'e' && s[p + 5] == 'r';
    proof {
        let t = s@.subrange(p as int, e as int);
        if r {
            assert(t =~= folder_keyword());
        } else if t == folder_keyword() {
            assert(folder_keyword().len() == 6);
            assert(folder_keyword()[0] == 'f' && folder_keyword()[1] == 'o' && folder_keyword()[2]
                == 'l' && folder_keyword()[3] == 'd' && folder_keyword()[4] == 'e'
                && folder_keyword()[5] == 'r');
            assert(t[0] == s@[p as int] && t[1] == s@[p + 1] && t[2] == s@[p + 2]);
            assert(t[3] == s@[p + 3] && t[4] == s@[p + 4] && t[5] == s@[p + 5]);
        }
    }
    r
}

fn item_exec(s: &Vec<char>, p: usize) -> (r: Result<(Node, usize), SyntaxError>)
    requires
        p <= s@.len(),
    ensures
        item_agrees(r, item_at(s@, p as int)),
{
    if !(p < s.len() && (('a' <= s[p] && s[p] <= 'z') || ('A' <= s[p] && s[p] <= 'Z'))) {
        return Err(SyntaxError { position: p, expected: Expected::Item });
    }
    proof {
        lemma_scan(s@, p + 1, CharClass::IdentTail);
    }
    let e = scan_exec(s, p + 1, CharClass::IdentTail);
    proof {
        lemma_skip(s@, e as int);
    }
    let q = skip_exec(s, e);
    if q < s.len() && s[q] == '=' {
        proof {
            lemma_skip(s@, q + 1);
        }
        match value_exec(s, skip_exec(s, q + 1)) {
            Ok((v, r)) => Ok((Node::Assignment { key: Span { start: p, end: e }, value: v }, r)),
            Err(x) => Err(x),
        }
    } else if is_folder_keyword(s, p, e) {
        folder_rest_exec(s, e)
    } else {
        Err(SyntaxError { position: q, expected: Expected::Equals })
    }
}

/// Parses the characters of a text into its top-level syntax nodes, in source order.
pub fn parse_chars(s: &Vec<char>) -> (r: Result<Vec<Node>, SyntaxError>)
    ensures
        tree_agrees(r, program(s@)),
{
    let mut acc: Vec<Node> = Vec::new();
    let mut j: usize = 0;
    proof {
        if let Ok(ns) = program(s@) {
            assert(nodes_view(acc@) + ns =~= ns);
        }
    }
    loop
        invariant
            j <= s@.len(),
            program(s@) == prepend_nodes(nodes_view(acc@), program_from(s@, j as int)),
        decreases s@.len() - j,
    {
        proof {
            lemma_skip(s@, j as int);
        }
        let p = skip_exec(s, j);
        if p >= s.len() {
            proof {
                assert(nodes_view(acc@) + seq![] =~= nodes_view(acc@));
            }
            return Ok(acc);
        }
        proof {
            lemma_item_at(s@, p as int);
        }
        match item_exec(s, p) {
            Ok((n, q)) => {
                proof {
                    if let Ok(rest) = program_from(s@, q as int) {
                        assert(nodes_view(acc@) + (seq![n@] + rest) =~= nodes_view(acc@.push(n))
                            + rest);
                    }
                }
                acc.push(n);
                j = q;
            },
            Err(x) => {
                return Err(x);
            },
        }
    }
}

/// The characters of a text, in order.
pub fn text_chars(text: &str) -> (r: Vec<char>)
    ensures
        r@ == text@,
{
    let mut v: Vec<char> = Vec::new();
    for c in it: text.chars()
        invariant
            v@ == it.seq().take(it.index() as int),
            it.seq() == text@,
    {
        v.push(c);
    }
    v
}

/// The number of line feeds in `t`.
pub open spec fn line_feeds(t: Seq<char>) -> nat
    decreases t.len(),
{
    if t.len() == 0 {
        0
    } else {
        line_feeds(t.drop_last()) + if t.last() == '\n' {
            1nat
        } else {
            0nat
        }
    }
}

/// The zero-based line on which a character offset of `text` lies.
pub fn line_index(text: &str, position: usize) -> (r: usize)
    requires
        position <= text@.len(),
    ensures
        r == line_feeds(text@.take(position as int)),
{
    let s = text_chars(text);
    let mut n: usize = 0;
    let mut i: usize = 0;
    while i < position
        invariant
            s@ == text@,
            i <= position <= s@.len(),
            n == line_feeds(s@.take(i as int)),
            n <= i,
        decreases position - i,
    {
        proof {
            assert(s@.take(i + 1).drop_last() =~= s@.take(i as int));
        }
        if s[i] == '\n' {
            n = n + 1;
        }
        i = i + 1;
    }
    n
}

/// Parses a text into its top-level syntax nodes, in source order; spans index
/// the text's characters.
pub fn parse_grammar(text: &str) -> (r: Result<Vec<Node>, SyntaxError>)
    ensures
        tree_agrees(r, program(text@)),
{
    let s = text_chars(text);
    parse_chars(&s)
}

} // verus!
