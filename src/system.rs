//! The data model of a button board, and the assembler that validates a parse
//! tree and builds a [`System`] from it.
use vstd::prelude::*;
use crate::grammar::{
    nodes_view, parse_chars, program, text_chars, valid_node, valid_span, Expected,
    Node, NodeModel, Span, lemma_program_from,
};

verus! {

/// What pressing a button of a folder does.
#[derive(Clone, Copy, PartialEq, Eq, Structural, Debug)]
pub enum FolderMode {
    /// The label is added to an output buffer.
    Append,
    /// The label is output at once.
    Speak,
}

/// One named page of buttons.
#[derive(Debug)]
pub struct Folder {
    pub mode: FolderMode,
    /// Labels in layout order: left to right, top to bottom.
    pub buttons: Vec<String>,
}

pub struct FolderModel {
    pub mode: FolderMode,
    pub buttons: Seq<Seq<char>>,
}

impl View for Folder {
    type V = FolderModel;

    open spec fn view(&self) -> FolderModel {
        FolderModel { mode: self.mode, buttons: self.buttons@.map_values(|b: String| b@) }
    }
}

/// A whole board configuration.
#[derive(Debug)]
pub struct System {
    pub name: String,
    pub description: String,
    /// The folder shown first; it need not name one of `folders`.
    pub default: String,
    pub rows: u8,
    pub cols: u8,
    /// Folders by name; each name occurs once.
    pub folders: Vec<(String, Folder)>,
}

pub struct SystemModel {
    pub name: Seq<char>,
    pub description: Seq<char>,
    pub default: Seq<char>,
    pub rows: u8,
    pub cols: u8,
    pub folders: Map<Seq<char>, FolderModel>,
}

/// The map that a list of entries describes, a later entry replacing an
/// earlier one of the same name.
pub open spec fn entries_map(v: Seq<(String, Folder)>) -> Map<Seq<char>, FolderModel>
    decreases v.len(),
{
    if v.len() == 0 {
        Map::empty()
    } else {
        entries_map(v.drop_last()).insert(v.last().0@, v.last().1@)
    }
}

pub open spec fn keys_unique(v: Seq<(String, Folder)>) -> bool {
    forall|i: int, j: int| 0 <= i < j < v.len() ==> #[trigger] v[i].0@ != #[trigger] v[j].0@
}

impl System {
    /// Folder names are unique.
    pub open spec fn well_formed(&self) -> bool {
        keys_unique(self.folders@)
    }
}

impl View for System {
    type V = SystemModel;

    open spec fn view(&self) -> SystemModel {
        SystemModel {
            name: self.name@,
            description: self.description@,
            default: self.default@,
            rows: self.rows,
            cols: self.cols,
            folders: entries_map(self.folders@),
        }
    }
}

/// A mandatory metadata key.
#[derive(Clone, Copy, PartialEq, Eq, Structural, Debug)]
pub enum Field {
    Name,
    Description,
    Default,
    Rows,
    Cols,
}

/// Why a text does not describe a board.
#[derive(Debug)]
pub enum ParseError {
    /// The text leaves the grammar at `position` (a character offset).
    Syntax { position: usize, expected: Expected },
    /// A mandatory key is never assigned.
    MissingField { field_name: Field },
    /// A folder's mode is neither `append` nor `speak`.
    InvalidMode { folder_name: String, found: String },
    /// `rows` or `cols` is not a decimal number from 0 to 255.
    InvalidNumber { field_name: Field, found: String },
}

pub enum ParseErrorModel {
    Syntax { position: usize, expected: Expected },
    MissingField { field_name: Field },
    InvalidMode { folder_name: Seq<char>, found: Seq<char> },
    InvalidNumber { field_name: Field, found: Seq<char> },
}

impl View for ParseError {
    type V = ParseErrorModel;

    open spec fn view(&self) -> ParseErrorModel {
        match self {
            ParseError::Syntax { position, expected } => ParseErrorModel::Syntax {
                position: *position,
                expected: *expected,
            },
            ParseError::MissingField { field_name } => ParseErrorModel::MissingField {
                field_name: *field_name,
            },
            ParseError::InvalidMode { folder_name, found } => ParseErrorModel::InvalidMode {
                folder_name: folder_name@,
                found: found@,
            },
            ParseError::InvalidNumber { field_name, found } => ParseErrorModel::InvalidNumber {
                field_name: *field_name,
                found: found@,
            },
        }
    }
}

pub open spec fn text_of(s: Seq<char>, sp: Span) -> Seq<char> {
    s.subrange(sp.start as int, sp.end as int)
}

pub open spec fn field_key(f: Field) -> Seq<char> {
    match f {
        Field::Name => "name"@,
        Field::Description => "description"@,
        Field::Default => "default"@,
        Field::Rows => "rows"@,
        Field::Cols => "cols"@,
    }
}

/// The metadata map: each assignment in order, a later one replacing an
/// earlier one of the same key.
pub open spec fn metadata(s: Seq<char>, ns: Seq<NodeModel>) -> Map<Seq<char>, Seq<char>>
    decreases ns.len(),
{
    if ns.len() == 0 {
        Map::empty()
    } else {
        let m = metadata(s, ns.drop_last());
        match ns.last() {
            NodeModel::Assignment { key, value } => m.insert(text_of(s, key), text_of(s, value)),
            _ => m,
        }
    }
}

pub open spec fn mode_of(t: Seq<char>) -> Option<FolderMode> {
    if t == "append"@ {
        Some(FolderMode::Append)
    } else if t == "speak"@ {
        Some(FolderMode::Speak)
    } else {
        None
    }
}

pub open spec fn folder_of(s: Seq<char>, mode: FolderMode, buttons: Seq<Span>) -> FolderModel {
    FolderModel { mode, buttons: buttons.map_values(|b: Span| text_of(s, b)) }
}

/// The folder map, or the name and mode text of the first folder whose mode
/// is not valid.
pub open spec fn folders_of(s: Seq<char>, ns: Seq<NodeModel>) -> Result<
    Map<Seq<char>, FolderModel>,
    (Seq<char>, Seq<char>),
>
    decreases ns.len(),
{
    if ns.len() == 0 {
        Ok(Map::empty())
    } else {
        match folders_of(s, ns.drop_last()) {
            Err(e) => Err(e),
            Ok(m) => match ns.last() {
                NodeModel::Folder { name, mode, buttons } => match mode_of(text_of(s, mode)) {
                    Some(md) => Ok(m.insert(text_of(s, name), folder_of(s, md, buttons))),
                    None => Err((text_of(s, name), text_of(s, mode))),
                },
                _ => Ok(m),
            },
        }
    }
}

pub open spec fn is_digit_char(c: char) -> bool {
    '0' <= c && c <= '9'
}

/// The value of a string of decimal digits.
pub open spec fn decimal_value(t: Seq<char>) -> int
    decreases t.len(),
{
    if t.len() == 0 {
        0
    } else {
        decimal_value(t.drop_last()) * 10 + (t.last() as int - '0' as int)
    }
}

/// A number field's value: one or more decimal digits, at most 255.
pub open spec fn number_of(t: Seq<char>) -> Option<u8> {
    if t.len() > 0 && (forall|i: int| 0 <= i < t.len() ==> is_digit_char(#[trigger] t[i]))
        && decimal_value(t) <= 255 {
        Some(decimal_value(t) as u8)
    } else {
        None
    }
}

/// Validates a parse tree of `s` and builds the board it describes.
pub open spec fn assemble(s: Seq<char>, ns: Seq<NodeModel>) -> Result<SystemModel, ParseErrorModel> {
    let md = metadata(s, ns);
    match folders_of(s, ns) {
        Err((f, m)) => Err(ParseErrorModel::InvalidMode { folder_name: f, found: m }),
        Ok(fm) => if !md.contains_key(field_key(Field::Name)) {
            Err(ParseErrorModel::MissingField { field_name: Field::Name })
        } else if !md.contains_key(field_key(Field::Description)) {
            Err(ParseErrorModel::MissingField { field_name: Field::Description })
        } else if !md.contains_key(field_key(Field::Default)) {
            Err(ParseErrorModel::MissingField { field_name: Field::Default })
        } else if !md.contains_key(field_key(Field::Rows)) {
            Err(ParseErrorModel::MissingField { field_name: Field::Rows })
        } else if number_of(md[field_key(Field::Rows)]) is None {
            Err(
                ParseErrorModel::InvalidNumber {
                    field_name: Field::Rows,
                    found: md[field_key(Field::Rows)],
                },
            )
        } else if !md.contains_key(field_key(Field::Cols)) {
            Err(ParseErrorModel::MissingField { field_name: Field::Cols })
        } else if number_of(md[field_key(Field::Cols)]) is None {
            Err(
                ParseErrorModel::InvalidNumber {
                    field_name: Field::Cols,
                    found: md[field_key(Field::Cols)],
                },
            )
        } else {
            Ok(
                SystemModel {
                    name: md[field_key(Field::Name)],
                    description: md[field_key(Field::Description)],
                    default: md[field_key(Field::Default)],
                    rows: number_of(md[field_key(Field::Rows)])->Some_0,
                    cols: number_of(md[field_key(Field::Cols)])->Some_0,
                    folders: fm,
                },
            )
        },
    }
}

/// What parsing a text yields.
pub open spec fn parse_model(s: Seq<char>) -> Result<SystemModel, ParseErrorModel> {
    match program(s) {
        Err(x) => Err(ParseErrorModel::Syntax { position: x.position, expected: x.expected }),
        Ok(ns) => assemble(s, ns),
    }
}

pub open spec fn result_view(r: Result<System, ParseError>) -> Result<SystemModel, ParseErrorModel> {
    match r {
        Ok(sys) => Ok(sys@),
        Err(e) => Err(e@),
    }
}

pub proof fn lemma_entries_update(v: Seq<(String, Folder)>, idx: int, e: (String, Folder))
    requires
        keys_unique(v),
        0 <= idx < v.len(),
        v[idx].0@ == e.0@,
    ensures
        entries_map(v.update(idx, e)) == entries_map(v).insert(e.0@, e.1@),
        keys_unique(v.update(idx, e)),
    decreases v.len(),
{
    let w = v.update(idx, e);
    if idx == v.len() - 1 {
        assert(w.drop_last() =~= v.drop_last());
        assert(entries_map(w) =~= entries_map(v).insert(e.0@, e.1@));
    } else {
        let d = v.drop_last();
        assert(w.drop_last() =~= d.update(idx, e));
        assert(keys_unique(d));
        lemma_entries_update(d, idx, e);
        assert(v[idx].0@ != v[v.len() - 1].0@);
        assert(entries_map(w) =~= entries_map(v).insert(e.0@, e.1@));
    }
}

/// A failed folder map stays failed as more nodes follow.
pub proof fn lemma_folders_err_kept(s: Seq<char>, ns: Seq<NodeModel>, k: int)
    requires
        0 <= k <= ns.len(),
        folders_of(s, ns.take(k)) is Err,
    ensures
        folders_of(s, ns) == folders_of(s, ns.take(k)),
    decreases ns.len(),
{
    if k == ns.len() {
        assert(ns.take(k) =~= ns);
    } else {
        assert(ns.drop_last().take(k) =~= ns.take(k));
        lemma_folders_err_kept(s, ns.drop_last(), k);
    }
}

pub proof fn lemma_decimal_monotone(t: Seq<char>, k: int)
    requires
        0 <= k <= t.len(),
        forall|i: int| 0 <= i < t.len() ==> is_digit_char(#[trigger] t[i]),
    ensures
        0 <= decimal_value(t.take(k)) <= decimal_value(t),
    decreases t.len(),
{
    if k == t.len() {
        assert(t.take(k) =~= t);
        if t.len() > 0 {
            lemma_decimal_monotone(t.drop_last(), 0);
        }
    } else {
        let d = t.drop_last();
        assert(d.take(k) =~= t.take(k));
        lemma_decimal_monotone(d, k);
    }
}

fn span_text(text: &str, sp: Span) -> (r: String)
    requires
        valid_span(text@, sp),
    ensures
        r@ == text_of(text@, sp),
{
    text.substring_char(sp.start, sp.end).to_owned()
}

fn field_key_exec(f: Field) -> (r: String)
    ensures
        r@ == field_key(f),
{
    match f {
        Field::Name => "name".to_owned(),
        Field::Description => "description".to_owned(),
        Field::Default => "default".to_owned(),
        Field::Rows => "rows".to_owned(),
        Field::Cols => "cols".to_owned(),
    }
}

fn mode_exec(m: &String) -> (r: Option<FolderMode>)
    ensures
        r == mode_of(m@),
{
    let append = "append".to_owned();
    let speak = "speak".to_owned();
    if *m == append {
        Some(FolderMode::Append)
    } else if *m == speak {
        Some(FolderMode::Speak)
    } else {
        None
    }
}

pub open spec fn nodes_valid(s: Seq<char>, ns: Seq<NodeModel>) -> bool {
    forall|j: int| 0 <= j < ns.len() ==> valid_node(s, #[trigger] ns[j])
}

/// The span of the last value assigned to `key`, if any.
fn last_value(text: &str, nodes: &Vec<Node>, key: &String) -> (r: Option<Span>)
    requires
        nodes_valid(text@, nodes_view(nodes@)),
    ensures
        ({
            let md = metadata(text@, nodes_view(nodes@));
            match r {
                Some(sp) => md.contains_key(key@) && md[key@] == text_of(text@, sp) && valid_span(
                    text@,
                    sp,
                ),
                None => !md.contains_key(key@),
            }
        }),
{
    let ghost nv = nodes_view(nodes@);
    let mut found: Option<Span> = None;
    for i in 0..nodes.len()
        invariant
            nv == nodes_view(nodes@),
            nodes_valid(text@, nv),
            ({
                let md = metadata(text@, nv.take(i as int));
                match found {
                    Some(sp) => md.contains_key(key@) && md[key@] == text_of(text@, sp)
                        && valid_span(text@, sp),
                    None => !md.contains_key(key@),
                }
            }),
    {
        proof {
            assert(nv.take(i + 1).drop_last() =~= nv.take(i as int));
            assert(valid_node(text@, nv[i as int]));
        }
        match &nodes[i] {
            Node::Assignment { key: k, value } => {
                let kt = span_text(text, *k);
                if kt == *key {
                    found = Some(*value);
                }
            },
            _ => {},
        }
    }
    proof {
        assert(nv.take(nv.len() as int) =~= nv);
    }
    found
}

fn number_exec(s: &Vec<char>, sp: Span) -> (r: Option<u8>)
    requires
        valid_span(s@, sp),
    ensures
        r == number_of(text_of(s@, sp)),
{
    let ghost t = text_of(s@, sp);
    if sp.start == sp.end {
        return None;
    }
    let mut v: u32 = 0;
    let mut i: usize = sp.start;
    while i < sp.end
        invariant
            t == text_of(s@, sp),
            sp.start <= i <= sp.end <= s@.len(),
            forall|j: int| 0 <= j < i - sp.start ==> is_digit_char(#[trigger] t[j]),
            v == decimal_value(t.take(i - sp.start)),
            v <= 255,
        decreases sp.end - i,
    {
        let c = s[i];
        proof {
            assert(t[i - sp.start] == c);
        }
        if !('0' <= c && c <= '9') {
            return None;
        }
        let nv = v * 10 + (c as u32 - '0' as u32);
        proof {
            assert(t.take(i + 1 - sp.start).drop_last() =~= t.take(i - sp.start));
        }
        if nv > 255 {
            proof {
                if forall|j: int| 0 <= j < t.len() ==> is_digit_char(#[trigger] t[j]) {
                    lemma_decimal_monotone(t, i + 1 - sp.start);
                }
            }
            return None;
        }
        v = nv;
        i = i + 1;
    }
    proof {
        assert(t.take(t.len() as int) =~= t);
    }
    Some(v as u8)
}

fn labels_exec(text: &str, buttons: &Vec<Span>) -> (r: Vec<String>)
    requires
        forall|j: int| 0 <= j < buttons@.len() ==> valid_span(text@, #[trigger] buttons@[j]),
    ensures
        r@.map_values(|b: String| b@) == buttons@.map_values(|b: Span| text_of(text@, b)),
{
    let mut r: Vec<String> = Vec::new();
    for i in 0..buttons.len()
        invariant
            forall|j: int| 0 <= j < buttons@.len() ==> valid_span(text@, #[trigger] buttons@[j]),
            r@.len() == i,
            forall|j: int| 0 <= j < i ==> (#[trigger] r@[j])@ == text_of(text@, buttons@[j]),
    {
        r.push(span_text(text, buttons[i]));
    }
    assert(r@.map_values(|b: String| b@) =~= buttons@.map_values(|b: Span| text_of(text@, b)));
    r
}

fn insert_folder(acc: &mut Vec<(String, Folder)>, name: String, f: Folder)
    requires
        keys_unique(old(acc)@),
    ensures
        keys_unique(final(acc)@),
        entries_map(final(acc)@) == entries_map(old(acc)@).insert(name@, f@),
{
    let mut idx: usize = 0;
    while idx < acc.len()
        invariant
            idx <= acc@.len(),
            acc@ == old(acc)@,
            keys_unique(acc@),
            forall|j: int| 0 <= j < idx ==> (#[trigger] acc@[j]).0@ != name@,
        decreases acc@.len() - idx,
    {
        if acc[idx].0 == name {
            proof {
                lemma_entries_update(acc@, idx as int, (name, f));
            }
            acc[idx] = (name, f);
            return;
        }
        idx = idx + 1;
    }
    let ghost before = acc@;
    acc.push((name, f));
    proof {
        assert(acc@.drop_last() =~= before);
        assert forall|i: int, j: int| 0 <= i < j < acc@.len() implies #[trigger] acc@[i].0@
            != #[trigger] acc@[j].0@ by {
            if j == acc@.len() - 1 {
                assert(acc@[i] == before[i]);
            } else {
                assert(acc@[i] == before[i] && acc@[j] == before[j]);
            }
        }
    }
}

fn folders_exec(text: &str, nodes: &Vec<Node>) -> (r: Result<Vec<(String, Folder)>, (String, String)>)
    requires
        nodes_valid(text@, nodes_view(nodes@)),
    ensures
        match folders_of(text@, nodes_view(nodes@)) {
            Ok(m) => r matches Ok(v) && entries_map(v@) == m && keys_unique(v@),
            Err((f, md)) => r matches Err((a, b)) && a@ == f && b@ == md,
        },
{
    let ghost nv = nodes_view(nodes@);
    let mut acc: Vec<(String, Folder)> = Vec::new();
    proof {
        assert(nv.take(0) =~= Seq::<NodeModel>::empty());
        assert(entries_map(acc@) =~= Map::empty());
    }
    for i in 0..nodes.len()
        invariant
            nv == nodes_view(nodes@),
            nodes_valid(text@, nv),
            folders_of(text@, nv.take(i as int)) == Ok::<
                Map<Seq<char>, FolderModel>,
                (Seq<char>, Seq<char>),
            >(entries_map(acc@)),
            keys_unique(acc@),
    {
        proof {
            assert(nv.take(i + 1).drop_last() =~= nv.take(i as int));
            assert(valid_node(text@, nv[i as int]));
        }
        match &nodes[i] {
            Node::Folder { name, mode, buttons } => {
                let name_s = span_text(text, *name);
                let mode_s = span_text(text, *mode);
                match mode_exec(&mode_s) {
                    None => {
                        proof {
                            lemma_folders_err_kept(text@, nv, i + 1);
                        }
                        return Err((name_s, mode_s));
                    },
                    Some(md) => {
                        let labels = labels_exec(text, buttons);
                        let folder = Folder { mode: md, buttons: labels };
                        proof {
                            assert(folder@ == folder_of(text@, md, buttons@));
                        }
                        insert_folder(&mut acc, name_s, folder);
                    },
                }
            },
            _ => {},
        }
    }
    proof {
        assert(nv.take(nv.len() as int) =~= nv);
    }
    Ok(acc)
}

/// Validates a parse tree of `text` and builds the board it describes.
pub fn assemble_nodes(text: &str, s: &Vec<char>, nodes: &Vec<Node>) -> (r: Result<System, ParseError>)
    requires
        s@ == text@,
        nodes_valid(text@, nodes_view(nodes@)),
    ensures
        result_view(r) == assemble(text@, nodes_view(nodes@)),
        r matches Ok(sys) ==> sys.well_formed(),
{
    let folders = match folders_exec(text, nodes) {
        Ok(v) => v,
        Err((f, m)) => {
            return Err(ParseError::InvalidMode { folder_name: f, found: m });
        },
    };
    let name = match last_value(text, nodes, &field_key_exec(Field::Name)) {
        Some(sp) => span_text(text, sp),
        None => {
            return Err(ParseError::MissingField { field_name: Field::Name });
        },
    };
    let description = match last_value(text, nodes, &field_key_exec(Field::Description)) {
        Some(sp) => span_text(text, sp),
        None => {
            return Err(ParseError::MissingField { field_name: Field::Description });
        },
    };
    let default = match last_value(text, nodes, &field_key_exec(Field::Default)) {
        Some(sp) => span_text(text, sp),
        None => {
            return Err(ParseError::MissingField { field_name: Field::Default });
        },
    };
    let rows = match last_value(text, nodes, &field_key_exec(Field::Rows)) {
        Some(sp) => match number_exec(s, sp) {
            Some(n) => n,
            None => {
                return Err(
                    ParseError::InvalidNumber { field_name: Field::Rows, found: span_text(text, sp) },
                );
            },
        },
        None => {
            return Err(ParseError::MissingField { field_name: Field::Rows });
        },
    };
    let cols = match last_value(text, nodes, &field_key_exec(Field::Cols)) {
        Some(sp) => match number_exec(s, sp) {
            Some(n) => n,
            None => {
                return Err(
                    ParseError::InvalidNumber { field_name: Field::Cols, found: span_text(text, sp) },
                );
            },
        },
        None => {
            return Err(ParseError::MissingField { field_name: Field::Cols });
        },
    };
    Ok(System { name, description, default, rows, cols, folders })
}

pub proof fn lemma_entries_lookup(v: Seq<(String, Folder)>, k: Seq<char>)
    requires
        keys_unique(v),
    ensures
        forall|i: int|
            0 <= i < v.len() && #[trigger] v[i].0@ == k ==> entries_map(v).contains_key(k)
                && entries_map(v)[k] == v[i].1@,
        (forall|i: int| 0 <= i < v.len() ==> #[trigger] v[i].0@ != k) ==> !entries_map(
            v,
        ).contains_key(k),
    decreases v.len(),
{
    if v.len() > 0 {
        let d = v.drop_last();
        assert forall|i: int, j: int| 0 <= i < j < d.len() implies #[trigger] d[i].0@
            != #[trigger] d[j].0@ by {
            assert(d[i] == v[i] && d[j] == v[j]);
        }
        lemma_entries_lookup(d, k);
        assert forall|i: int| 0 <= i < v.len() && #[trigger] v[i].0@ == k implies entries_map(
            v,
        ).contains_key(k) && entries_map(v)[k] == v[i].1@ by {
            if i < v.len() - 1 {
                assert(d[i] == v[i]);
                assert(v[i].0@ != v[v.len() - 1].0@);
            }
        }
        if forall|i: int| 0 <= i < v.len() ==> #[trigger] v[i].0@ != k {
            assert forall|i: int| 0 <= i < d.len() implies #[trigger] d[i].0@ != k by {
                assert(d[i] == v[i]);
            }
        }
    }
}

impl System {
    /// The folder of the given name, if the board has one.
    pub fn folder(&self, name: &str) -> (r: Option<&Folder>)
        requires
            self.well_formed(),
        ensures
            match r {
                Some(f) => self@.folders.contains_key(name@) && f@ == self@.folders[name@],
                None => !self@.folders.contains_key(name@),
            },
    {
        let key = name.to_owned();
        let mut i: usize = 0;
        while i < self.folders.len()
            invariant
                i <= self.folders@.len(),
                self.well_formed(),
                key@ == name@,
                forall|j: int| 0 <= j < i ==> (#[trigger] self.folders@[j]).0@ != name@,
            decreases self.folders@.len() - i,
        {
            if self.folders[i].0 == key {
                proof {
                    lemma_entries_lookup(self.folders@, name@);
                    assert(self.folders@[i as int].0@ == name@);
                }
                return Some(&self.folders[i].1);
            }
            i = i + 1;
        }
        proof {
            lemma_entries_lookup(self.folders@, name@);
        }
        None
    }
}

/// Parses a board description: the grammar first, then validation and assembly.
pub fn parse(text: &str) -> (r: Result<System, ParseError>)
    ensures
        result_view(r) == parse_model(text@),
        r matches Ok(sys) ==> sys.well_formed(),
{
    let s = text_chars(text);
    match parse_chars(&s) {
        Err(x) => Err(ParseError::Syntax { position: x.position, expected: x.expected }),
        Ok(nodes) => {
            proof {
                lemma_program_from(s@, 0);
            }
            assemble_nodes(text, &s, &nodes)
        },
    }
}

} // verus!
