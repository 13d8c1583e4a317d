//! Properties of the parser that relate several of its parts.
use vstd::prelude::*;
use crate::grammar::{lemma_program_from, program, spans_ordered, NodeModel, Span};
use crate::system::{
    ParseErrorModel, SystemModel,
    field_key, folder_of, folders_of, metadata, mode_of, parse_model, result_view, text_of, Field,
    FolderModel, ParseError, System,
};

verus! {

pub proof fn lemma_folders_of_assignments(s: Seq<char>, ns: Seq<NodeModel>)
    requires
        forall|j: int| 0 <= j < ns.len() ==> #[trigger] ns[j] is Assignment,
    ensures
        folders_of(s, ns) == Ok::<Map<Seq<char>, FolderModel>, (Seq<char>, Seq<char>)>(
            Map::empty(),
        ),
    decreases ns.len(),
{
    if ns.len() > 0 {
        assert(ns.last() is Assignment);
        lemma_folders_of_assignments(s, ns.drop_last());
    }
}

/// A text whose top-level items are all assignments gives a board without
/// folders, whenever it gives a board.
pub proof fn lemma_assignments_only_no_folders(s: Seq<char>)
    requires
        program(s) is Ok,
        forall|j: int|
            0 <= j < program(s)->Ok_0.len() ==> #[trigger] program(s)->Ok_0[j] is Assignment,
        parse_model(s) is Ok,
    ensures
        parse_model(s)->Ok_0.folders == Map::<Seq<char>, FolderModel>::empty(),
{
    lemma_folders_of_assignments(s, program(s)->Ok_0);
}

/// The name of the folder node `n`.
pub open spec fn folder_name(s: Seq<char>, n: NodeModel) -> Seq<char> {
    text_of(s, n->Folder_name)
}

pub proof fn lemma_folders_of_last_declaration(s: Seq<char>, ns: Seq<NodeModel>, k: int)
    requires
        folders_of(s, ns) is Ok,
        0 <= k < ns.len(),
        ns[k] is Folder,
        forall|j: int|
            k < j < ns.len() && #[trigger] ns[j] is Folder ==> folder_name(s, ns[j])
                != folder_name(s, ns[k]),
    ensures
        mode_of(text_of(s, ns[k]->Folder_mode)) is Some,
        folders_of(s, ns)->Ok_0.contains_key(folder_name(s, ns[k])),
        folders_of(s, ns)->Ok_0[folder_name(s, ns[k])] == folder_of(
            s,
            mode_of(text_of(s, ns[k]->Folder_mode))->Some_0,
            ns[k]->Folder_buttons,
        ),
    decreases ns.len(),
{
    let d = ns.drop_last();
    if k < ns.len() - 1 {
        assert(ns.last() == ns[ns.len() - 1]);
        assert forall|j: int| k < j < d.len() && #[trigger] d[j] is Folder implies folder_name(
            s,
            d[j],
        ) != folder_name(s, d[k]) by {
            assert(d[j] == ns[j]);
        }
        lemma_folders_of_last_declaration(s, d, k);
    }
}

/// A folder of a parsed board lists its buttons exactly as its last
/// declaration in the text does, in source order, and keeps that
/// declaration's mode.
pub proof fn lemma_buttons_in_source_order(s: Seq<char>, k: int)
    requires
        s.len() <= usize::MAX,
        program(s) is Ok,
        parse_model(s) is Ok,
        0 <= k < program(s)->Ok_0.len(),
        program(s)->Ok_0[k] is Folder,
        forall|j: int|
            k < j < program(s)->Ok_0.len() && #[trigger] program(s)->Ok_0[j] is Folder
                ==> folder_name(s, program(s)->Ok_0[j]) != folder_name(s, program(s)->Ok_0[k]),
    ensures
        ({
            let n = program(s)->Ok_0[k];
            let folders = parse_model(s)->Ok_0.folders;
            &&& folders.contains_key(folder_name(s, n))
            &&& folders[folder_name(s, n)].buttons == n->Folder_buttons.map_values(
                |b: Span| text_of(s, b),
            )
            &&& Some(folders[folder_name(s, n)].mode) == mode_of(text_of(s, n->Folder_mode))
            &&& spans_ordered(n->Folder_buttons)
        }),
{
    lemma_program_from(s, 0);
    lemma_folders_of_last_declaration(s, program(s)->Ok_0, k);
}

/// The key of the assignment node `n`.
pub open spec fn assigned_key(s: Seq<char>, n: NodeModel) -> Seq<char> {
    text_of(s, n->Assignment_key)
}

pub proof fn lemma_metadata_last_assignment(s: Seq<char>, ns: Seq<NodeModel>, k: int)
    requires
        0 <= k < ns.len(),
        ns[k] is Assignment,
        forall|j: int|
            k < j < ns.len() && #[trigger] ns[j] is Assignment ==> assigned_key(s, ns[j])
                != assigned_key(s, ns[k]),
    ensures
        metadata(s, ns).contains_key(assigned_key(s, ns[k])),
        metadata(s, ns)[assigned_key(s, ns[k])] == text_of(s, ns[k]->Assignment_value),
    decreases ns.len(),
{
    let d = ns.drop_last();
    if k < ns.len() - 1 {
        assert(ns.last() == ns[ns.len() - 1]);
        assert forall|j: int| k < j < d.len() && #[trigger] d[j] is Assignment implies assigned_key(
            s,
            d[j],
        ) != assigned_key(s, d[k]) by {
            assert(d[j] == ns[j]);
        }
        lemma_metadata_last_assignment(s, d, k);
    }
}

/// Of several assignments to `name`, the last one gives the board its name.
pub proof fn lemma_name_last_write_wins(s: Seq<char>, k: int)
    requires
        program(s) is Ok,
        parse_model(s) is Ok,
        0 <= k < program(s)->Ok_0.len(),
        program(s)->Ok_0[k] is Assignment,
        assigned_key(s, program(s)->Ok_0[k]) == field_key(Field::Name),
        forall|j: int|
            k < j < program(s)->Ok_0.len() && #[trigger] program(s)->Ok_0[j] is Assignment
                ==> assigned_key(s, program(s)->Ok_0[j]) != field_key(Field::Name),
    ensures
        parse_model(s)->Ok_0.name == text_of(s, program(s)->Ok_0[k]->Assignment_value),
{
    lemma_metadata_last_assignment(s, program(s)->Ok_0, k);
}

pub proof fn lemma_metadata_absent(s: Seq<char>, ns: Seq<NodeModel>, key: Seq<char>)
    requires
        forall|j: int| 0 <= j < ns.len() && #[trigger] ns[j] is Assignment ==> assigned_key(s, ns[j]) != key,
    ensures
        !metadata(s, ns).contains_key(key),
    decreases ns.len(),
{
    if ns.len() > 0 {
        let d = ns.drop_last();
        assert(ns.last() == ns[ns.len() - 1]);
        assert forall|j: int| 0 <= j < d.len() && #[trigger] d[j] is Assignment implies assigned_key(
            s,
            d[j],
        ) != key by {
            assert(d[j] == ns[j]);
        }
        lemma_metadata_absent(s, d, key);
    }
}

/// A text that never assigns `name`, and whose folders are valid, is
/// refused for the missing `name`.
pub proof fn lemma_missing_name(s: Seq<char>)
    requires
        program(s) is Ok,
        folders_of(s, program(s)->Ok_0) is Ok,
        forall|j: int|
            0 <= j < program(s)->Ok_0.len() && #[trigger] program(s)->Ok_0[j] is Assignment
                ==> assigned_key(s, program(s)->Ok_0[j]) != field_key(Field::Name),
    ensures
        parse_model(s) == Err::<SystemModel, ParseErrorModel>(
            ParseErrorModel::MissingField { field_name: Field::Name },
        ),
{
    lemma_metadata_absent(s, program(s)->Ok_0, field_key(Field::Name));
}

/// Parsing depends on the text alone: two parses of one text give equal
/// boards, field by field, or equal errors.
pub proof fn lemma_parse_deterministic(
    text: &str,
    first: Result<System, ParseError>,
    second: Result<System, ParseError>,
)
    requires
        result_view(first) == parse_model(text@),
        result_view(second) == parse_model(text@),
    ensures
        result_view(first) == result_view(second),
        first is Ok <==> second is Ok,
{
}

} // verus!
