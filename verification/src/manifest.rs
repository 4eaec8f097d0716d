//! The manifest document and its override table.
//!
//! The document is parsed, held and written out by `toml_edit`.  This module
//! reads the override table out of the document and writes new `path` values
//! into it.  What it knows of a document is its `ItemView`: the tables, their
//! keys in document order, and the text values.  Comments and spacing are
//! `toml_edit`'s to keep; nothing here speaks of them.
//!
//! An override is what stands under a crate's name in a source group of the
//! override table.  It may be written in braces, as a table with a header of
//! its own, or with dotted keys; so may a source group and the override table
//! itself.  All of these are read and written alike.

use crate::error::PatchError;
use toml_edit::{Document, Item, TomlError};
use vstd::prelude::*;

verus! {

/// What an item of a manifest holds, as far as this library reads it.
pub enum ItemView {
    /// A table with a header of its own or made of dotted keys: its keys in
    /// document order, and what stands under each key.
    Table { keys: Seq<Seq<char>>, items: Map<Seq<char>, ItemView> },
    /// An inline table, written in braces: its keys in document order, and
    /// what stands under each key.
    InlineTable { keys: Seq<Seq<char>>, items: Map<Seq<char>, ItemView> },
    /// A string value.
    Text(Seq<char>),
    /// Any other value, an array of tables, or nothing.
    Other,
}

/// Whether `view` is a table of either form.
pub open spec fn is_table_like(view: ItemView) -> bool {
    view is Table || view is InlineTable
}

/// The keys of the table `view` in document order; a view that is no table
/// has none.
pub open spec fn keys_of(view: ItemView) -> Seq<Seq<char>> {
    match view {
        ItemView::Table { keys, items } => keys,
        ItemView::InlineTable { keys, items } => keys,
        _ => Seq::empty(),
    }
}

/// The key of the override table in a manifest.
pub open spec fn override_key() -> Seq<char> {
    "patch"@
}

/// The key of the attribute that holds the local path of an override.
pub open spec fn path_key() -> Seq<char> {
    "path"@
}

/// What stands under `key` in the table `view`, of either form.  A view
/// that is no table has nothing under any key.
pub open spec fn child(view: ItemView, key: Seq<char>) -> Option<ItemView> {
    match view {
        ItemView::Table { keys, items } => if items.contains_key(key) {
            Some(items[key])
        } else {
            None
        },
        ItemView::InlineTable { keys, items } => if items.contains_key(key) {
            Some(items[key])
        } else {
            None
        },
        _ => None,
    }
}

/// The table `view`, of either form, with `item` under `key`.  The keys stay
/// as they are.
pub open spec fn with_child(view: ItemView, key: Seq<char>, item: ItemView) -> ItemView {
    match view {
        ItemView::Table { keys, items } => ItemView::Table { keys, items: items.insert(key, item) },
        ItemView::InlineTable { keys, items } => ItemView::InlineTable {
            keys,
            items: items.insert(key, item),
        },
        _ => view,
    }
}

/// The place of one `path` attribute in the override table: the override
/// `name` in the source group `group`.
#[derive(Debug, Clone)]
pub struct PathSlot {
    /// The source group that holds the override.
    pub group: String,
    /// The name of the overridden crate.
    pub name: String,
    /// The value of the `path` attribute, where it is text.
    pub path: Option<String>,
}

/// A `PathSlot` with texts in place of strings.
pub struct PathSlotView {
    pub group: Seq<char>,
    pub name: Seq<char>,
    pub path: Option<Seq<char>>,
}

impl View for PathSlot {
    type V = PathSlotView;

    open spec fn view(&self) -> PathSlotView {
        PathSlotView {
            group: self.group@,
            name: self.name@,
            path: match self.path {
                Some(text) => Some(text@),
                None => None,
            },
        }
    }
}

impl DeepView for PathSlot {
    type V = PathSlotView;

    open spec fn deep_view(&self) -> PathSlotView {
        self@
    }
}

/// The slot of the override `name` in `group`, where `entry` stands under
/// `name`: a table of either form with a `path` attribute has one, anything
/// else has none.
pub open spec fn entry_slots(group: Seq<char>, name: Seq<char>, entry: Option<ItemView>) -> Seq<
    PathSlotView,
> {
    match entry {
        Some(held) => match child(held, path_key()) {
            Some(ItemView::Text(text)) => seq![PathSlotView { group, name, path: Some(text) }],
            Some(_) => seq![PathSlotView { group, name, path: None }],
            None => Seq::empty(),
        },
        None => Seq::empty(),
    }
}

/// `entry_slots` for the names of the table `table`, which stands under
/// `group`.
pub open spec fn slots_by_name(group: Seq<char>, table: ItemView) -> spec_fn(Seq<char>) -> Seq<
    PathSlotView,
> {
    |name: Seq<char>| entry_slots(group, name, child(table, name))
}

/// The slots of the source group `group`, where `item` stands under `group`:
/// those of its entries in document order where it is a table of either
/// form, none otherwise.
pub open spec fn group_slots(group: Seq<char>, item: Option<ItemView>) -> Seq<PathSlotView> {
    match item {
        Some(held) => keys_of(held).flat_map(slots_by_name(group, held)),
        None => Seq::empty(),
    }
}

/// `group_slots` for the groups of the override table `table`.
pub open spec fn slots_by_group(table: ItemView) -> spec_fn(Seq<char>) -> Seq<PathSlotView> {
    |group: Seq<char>| group_slots(group, child(table, group))
}

/// The slots of the document `document`: those of its source groups in
/// document order.  The override table is what stands under `patch`, where
/// that is a table of either form: written with headers, with dotted keys or
/// in braces.  A document with anything else under `patch`, or nothing, has
/// no override table and so no slots, which is not the same as an override
/// table without slots.
pub open spec fn override_slots(document: ItemView) -> Option<Seq<PathSlotView>> {
    match child(document, override_key()) {
        Some(table) => if is_table_like(table) {
            Some(keys_of(table).flat_map(slots_by_group(table)))
        } else {
            None
        },
        None => None,
    }
}

/// What stands under `key` in what stands under `name` in what stands under
/// `group` in what stands under `table` in `document`.
pub open spec fn item_at(
    document: ItemView,
    table: Seq<char>,
    group: Seq<char>,
    name: Seq<char>,
    key: Seq<char>,
) -> Option<ItemView> {
    match child(document, table) {
        Some(groups) => match child(groups, group) {
            Some(entries) => match child(entries, name) {
                Some(entry) => child(entry, key),
                None => None,
            },
            None => None,
        },
        None => None,
    }
}

/// `document` with the text `text` in the place that `item_at` speaks of.
/// Nothing else changes, and every table keeps its keys in their order.
pub open spec fn with_text_at(
    document: ItemView,
    table: Seq<char>,
    group: Seq<char>,
    name: Seq<char>,
    key: Seq<char>,
    text: Seq<char>,
) -> ItemView {
    let groups = child(document, table)->0;
    let entries = child(groups, group)->0;
    let entry = child(entries, name)->0;
    with_child(
        document,
        table,
        with_child(
            groups,
            group,
            with_child(entries, name, with_child(entry, key, ItemView::Text(text))),
        ),
    )
}

/// What stands under `name` in the source group `group` of the override
/// table of `document`.
pub open spec fn override_entry(document: ItemView, group: Seq<char>, name: Seq<char>) -> Option<
    ItemView,
> {
    match child(document, override_key()) {
        Some(table) => match child(table, group) {
            Some(entries) => child(entries, name),
            None => None,
        },
        None => None,
    }
}

/// The names of the source groups of `document` in document order.
pub open spec fn group_names(document: ItemView) -> Seq<Seq<char>> {
    match child(document, override_key()) {
        Some(table) => keys_of(table),
        None => Seq::empty(),
    }
}

/// The names of the overrides in the source group `group` of `document` in
/// document order.
pub open spec fn override_names(document: ItemView, group: Seq<char>) -> Seq<Seq<char>> {
    match child(document, override_key()) {
        Some(table) => match child(table, group) {
            Some(entries) => keys_of(entries),
            None => Seq::empty(),
        },
        None => Seq::empty(),
    }
}

/// Whether `document` has an override `name` in the source group `group`: a
/// table of either form.
pub open spec fn is_override(document: ItemView, group: Seq<char>, name: Seq<char>) -> bool {
    override_entry(document, group, name) matches Some(entry) && is_table_like(entry)
}

/// The text of the `path` attribute of the override `name` in the source
/// group `group` of `document`, where there is one.
pub open spec fn override_path(document: ItemView, group: Seq<char>, name: Seq<char>) -> Option<
    Seq<char>,
> {
    match item_at(document, override_key(), group, name, path_key()) {
        Some(ItemView::Text(text)) => Some(text),
        _ => None,
    }
}

/// `document` with the text `path` as the `path` attribute of the override
/// `name` in the source group `group`, where that override has a text as its
/// `path` attribute.  Nothing else changes; a document without such an
/// override stays as it is.
pub open spec fn with_path(
    document: ItemView,
    group: Seq<char>,
    name: Seq<char>,
    path: Seq<char>,
) -> ItemView {
    if override_path(document, group, name) is Some {
        with_text_at(document, override_key(), group, name, path_key(), path)
    } else {
        document
    }
}

/// `document` with `paths[i]` as the `path` attribute at `slots[i]`, for each
/// slot in turn.
pub open spec fn with_paths(
    document: ItemView,
    slots: Seq<PathSlotView>,
    paths: Seq<Seq<char>>,
) -> ItemView
    decreases slots.len(),
{
    if slots.len() == 0 {
        document
    } else {
        with_path(
            with_paths(document, slots.drop_last(), paths.drop_last()),
            slots.last().group,
            slots.last().name,
            paths.last(),
        )
    }
}

/// Writing a path writes it: afterwards the override holds the path as its
/// `path` attribute, and every other attribute of it as before.
pub proof fn lemma_with_path_writes_path(
    document: ItemView,
    group: Seq<char>,
    name: Seq<char>,
    path: Seq<char>,
)
    requires
        override_path(document, group, name) is Some,
    ensures
        ({
            let before = override_entry(document, group, name)->0;
            let after = override_entry(with_path(document, group, name, path), group, name)->0;
            &&& override_path(with_path(document, group, name, path), group, name) == Some(path)
            &&& keys_of(after) == keys_of(before)
            &&& forall|key: Seq<char>| key != path_key() ==> child(after, key) == child(before, key)
        }),
{
}

/// Writing a path changes nothing else: every other override, every other
/// source group and every other table of the document is as before, and the
/// document, the override table and its groups keep their keys in their
/// order.
pub proof fn lemma_with_path_keeps_the_rest(
    document: ItemView,
    group: Seq<char>,
    name: Seq<char>,
    path: Seq<char>,
)
    ensures
        ({
            let after = with_path(document, group, name, path);
            &&& forall|other: Seq<char>, entry: Seq<char>|
                other != group || entry != name ==> override_entry(after, other, entry)
                    == override_entry(document, other, entry)
            &&& forall|key: Seq<char>|
                key != override_key() ==> child(after, key) == child(document, key)
            &&& forall|other: Seq<char>, entry: Seq<char>|
                is_override(after, other, entry) == is_override(document, other, entry)
            &&& group_names(after) == group_names(document)
            &&& forall|other: Seq<char>|
                #[trigger] override_names(after, other) == override_names(document, other)
            &&& keys_of(after) == keys_of(document)
            &&& after is Table == document is Table
        }),
{
}

/// An override that has no slot stays as it is: a rewrite writes at its slots
/// and nowhere else.
pub proof fn lemma_with_paths_keeps_other_overrides(
    document: ItemView,
    slots: Seq<PathSlotView>,
    paths: Seq<Seq<char>>,
    group: Seq<char>,
    name: Seq<char>,
)
    requires
        forall|index: int|
            0 <= index < slots.len() ==> (#[trigger] slots[index]).group != group
                || slots[index].name != name,
    ensures
        override_entry(with_paths(document, slots, paths), group, name) == override_entry(
            document,
            group,
            name,
        ),
    decreases slots.len(),
{
    if slots.len() > 0 {
        let last = slots.last();
        assert(last.group != group || last.name != name);
        lemma_with_paths_keeps_other_overrides(
            document,
            slots.drop_last(),
            paths.drop_last(),
            group,
            name,
        );
        lemma_with_path_keeps_the_rest(
            with_paths(document, slots.drop_last(), paths.drop_last()),
            last.group,
            last.name,
            paths.last(),
        );
    }
}

/// No two of `slots` are in the same place: they differ in the source group
/// or in the name of the override.
pub open spec fn distinct_places(slots: Seq<PathSlotView>) -> bool {
    forall|first: int, second: int|
        0 <= first < second < slots.len() ==> (#[trigger] slots[first]).group != (
        #[trigger] slots[second]).group || slots[first].name != slots[second].name
}

/// Each element of a flat map comes from one of the items.
proof fn lemma_flat_map_element<A, B>(items: Seq<A>, each: spec_fn(A) -> Seq<B>, index: int) -> (place:
    (int, int))
    requires
        0 <= index < items.flat_map(each).len(),
    ensures
        0 <= place.0 < items.len(),
        0 <= place.1 < each(items[place.0]).len(),
        each(items[place.0])[place.1] == items.flat_map(each)[index],
    decreases items.len(),
{
    if items.len() == 0 {
        assert(items.map_values(each) =~= Seq::<Seq<B>>::empty());
        assert(items.flat_map(each) =~= Seq::<B>::empty());
        (0, 0)
    } else {
        let before = items.drop_last();
        before.lemma_flat_map_push(each, items.last());
        assert(before.push(items.last()) =~= items);
        if index < before.flat_map(each).len() {
            let place = lemma_flat_map_element(before, each, index);
            assert(before[place.0] == items[place.0]);
            place
        } else {
            (items.len() - 1, index - before.flat_map(each).len())
        }
    }
}

/// Each slot is the place of a `path` attribute of the document: what stands
/// there is what the slot says.
pub proof fn lemma_slots_are_in_place(document: ItemView, index: int)
    requires
        override_slots(document) is Some,
        0 <= index < override_slots(document)->0.len(),
    ensures
        ({
            let slot = override_slots(document)->0[index];
            &&& is_override(document, slot.group, slot.name)
            &&& item_at(document, override_key(), slot.group, slot.name, path_key()) matches Some(
                held,
            )
            &&& slot.path == override_path(document, slot.group, slot.name)
            &&& slot.path is None ==> !(held is Text)
        }),
{
    let table = child(document, override_key())->0;
    let by_group = slots_by_group(table);
    let outer = lemma_flat_map_element(keys_of(table), by_group, index);
    let group = keys_of(table)[outer.0];
    let entries = child(table, group)->0;
    let by_name = slots_by_name(group, entries);
    assert(by_group(group) == group_slots(group, child(table, group)));
    let inner = lemma_flat_map_element(keys_of(entries), by_name, outer.1);
    let name = keys_of(entries)[inner.0];
    assert(by_name(name) == entry_slots(group, name, child(entries, name)));
}

/// Writing the paths writes each of them: after a rewrite the override at a
/// slot holds the path that was written there, where that override had a
/// text as its `path` attribute and no other slot is in the same place.
pub proof fn lemma_with_paths_writes_each(
    document: ItemView,
    slots: Seq<PathSlotView>,
    paths: Seq<Seq<char>>,
    index: int,
)
    requires
        slots.len() == paths.len(),
        0 <= index < slots.len(),
        override_path(document, slots[index].group, slots[index].name) is Some,
        forall|other: int|
            0 <= other < slots.len() && other != index ==> (#[trigger] slots[other]).group
                != slots[index].group || slots[other].name != slots[index].name,
    ensures
        override_path(with_paths(document, slots, paths), slots[index].group, slots[index].name)
            == Some(paths[index]),
    decreases slots.len(),
{
    let group = slots[index].group;
    let name = slots[index].name;
    let before = with_paths(document, slots.drop_last(), paths.drop_last());
    if index == slots.len() - 1 {
        assert forall|other: int| 0 <= other < slots.drop_last().len() implies (
        #[trigger] slots.drop_last()[other]).group != group || slots.drop_last()[other].name
            != name by {
            assert(slots.drop_last()[other] == slots[other]);
        }
        lemma_with_paths_keeps_other_overrides(
            document,
            slots.drop_last(),
            paths.drop_last(),
            group,
            name,
        );
        lemma_with_path_writes_path(before, group, name, paths.last());
    } else {
        assert(slots.drop_last()[index] == slots[index]);
        assert(paths.drop_last()[index] == paths[index]);
        assert forall|other: int|
            0 <= other < slots.drop_last().len() && other != index implies (
        #[trigger] slots.drop_last()[other]).group != group || slots.drop_last()[other].name
            != name by {
            assert(slots.drop_last()[other] == slots[other]);
        }
        lemma_with_paths_writes_each(document, slots.drop_last(), paths.drop_last(), index);
        let last = slots.last();
        assert(last.group != group || last.name != name);
        lemma_with_path_keeps_the_rest(before, last.group, last.name, paths.last());
    }
}

#[verifier::external_type_specification]
#[verifier::external_body]
pub struct ExDocument(Document);

#[verifier::external_type_specification]
#[verifier::external_body]
pub struct ExItem(Item);

#[verifier::external_type_specification]
#[verifier::external_body]
pub struct ExTomlError(TomlError);

/// What the item `item` of a document holds.
pub uninterp spec fn item_view(item: Item) -> ItemView;

/// What the root table of `document` holds.
pub uninterp spec fn document_view(document: Document) -> ItemView;

/// The text that `document` is written out as.
pub uninterp spec fn document_text(document: Document) -> Seq<char>;

/// What the root table of the document holds that `text` parses to; `None`
/// where `text` is not a valid manifest.
pub uninterp spec fn manifest_syntax(text: Seq<char>) -> Option<ItemView>;

/// `toml_edit`'s parser, `Document::from_str`.  It gives a document exactly
/// for the texts that are valid, and what the document holds depends on the
/// text alone.
#[verifier::external_body]
fn parse_document(text: &str) -> (res: Result<Document, TomlError>)
    ensures
        match res {
            Ok(document) => manifest_syntax(text@) == Some(document_view(document)),
            Err(_) => manifest_syntax(text@) is None,
        },
{
    text.parse::<Document>()
}

/// What `toml_edit` shows of a parse error with `{:?}`.  Nothing is claimed
/// of the text.
#[verifier::external_body]
fn error_detail(error: &TomlError) -> (detail: String) {
    format!("{:?}", error)
}

/// `Document::as_item`: the root of a document, which is its root table.
#[verifier::external_body]
fn document_root(document: &Document) -> (root: &Item)
    ensures
        item_view(*root) == document_view(*document),
{
    document.as_item()
}

/// `Item::get` with a text key: the item under `key` where `item` is a table
/// or an inline table that has one there, `None` otherwise.
#[verifier::external_body]
fn item_get<'a>(item: &'a Item, key: &str) -> (found: Option<&'a Item>)
    ensures
        match found {
            Some(under) => child(item_view(*item), key@) == Some(item_view(*under)),
            None => child(item_view(*item), key@) is None,
        },
{
    item.get(key)
}

/// `Item::as_table_like` and `TableLike::iter`: the keys of a table of
/// either form in document order, `None` for an item that is no table.  No
/// key comes twice: the table is a map.
#[verifier::external_body]
fn table_keys(item: &Item) -> (keys: Option<Vec<String>>)
    ensures
        match keys {
            Some(found) => {
                &&& is_table_like(item_view(*item))
                &&& found.deep_view() == keys_of(item_view(*item))
                &&& found.deep_view().no_duplicates()
            },
            None => !is_table_like(item_view(*item)),
        },
{
    item.as_table_like().map(|table| table.iter().map(|(key, _)| key.to_string()).collect())
}

/// `Item::as_str`: the text of a string value, `None` for any other item.
#[verifier::external_body]
fn item_as_str(item: &Item) -> (text: Option<&str>)
    ensures
        match text {
            Some(held) => item_view(*item) == ItemView::Text(held@),
            None => !(item_view(*item) is Text),
        },
{
    item.as_str()
}

/// `Item::as_table_like_mut` and `TableLike::get_mut`, four times down from
/// the root, then `Item::as_value_mut`: the string value in that place is
/// replaced by the string `text`, which takes over what stood around the old
/// value (`Value::decor`).  The key stays as it was written, no key is added
/// or moved, and nothing else in the document changes.  None of these calls
/// fails on a document of another shape: where there is no such place,
/// nothing is written.
#[verifier::external_body]
fn set_text_at(
    document: &mut Document,
    table: &str,
    group: &str,
    name: &str,
    key: &str,
    text: &str,
)
    requires
        item_at(document_view(*old(document)), table@, group@, name@, key@) matches Some(held)
            && held is Text,
    ensures
        document_view(*final(document)) == with_text_at(
            document_view(*old(document)),
            table@,
            group@,
            name@,
            key@,
            text@,
        ),
{
    let held = document.as_item_mut().as_table_like_mut().and_then(|root| root.get_mut(table))
        .and_then(Item::as_table_like_mut).and_then(|groups| groups.get_mut(group))
        .and_then(Item::as_table_like_mut).and_then(|entries| entries.get_mut(name))
        .and_then(Item::as_table_like_mut).and_then(|entry| entry.get_mut(key))
        .and_then(Item::as_value_mut);
    if let Some(value) = held {
        let decor = value.decor().clone();
        *value = toml_edit::Value::from(text);
        *value.decor_mut() = decor;
    }
}

/// `Document`'s `to_string`: the text of the document.
#[verifier::external_body]
fn document_to_string(document: &Document) -> (text: String)
    ensures
        text@ == document_text(*document),
{
    document.to_string()
}

/// A manifest that can be changed and written out again.
pub struct ManifestDocument {
    document: Document,
}

impl View for ManifestDocument {
    type V = ItemView;

    closed spec fn view(&self) -> ItemView {
        document_view(self.document)
    }
}

/// The slot of the override `name` in `group`, where `entry` stands under
/// `name`.
fn read_entry(group: &str, name: &str, entry: &Item) -> (slot: Option<PathSlot>)
    ensures
        match slot {
            Some(found) => entry_slots(group@, name@, Some(item_view(*entry))) == seq![found@],
            None => entry_slots(group@, name@, Some(item_view(*entry))) == Seq::<
                PathSlotView,
            >::empty(),
        },
{
    let key = "path";
    match item_get(entry, key) {
        Some(value) => {
            let path = match item_as_str(value) {
                Some(text) => Some(text.to_owned()),
                None => None,
            };
            Some(PathSlot { group: group.to_owned(), name: name.to_owned(), path })
        },
        None => None,
    }
}

/// Appends to `slots` the slots of the source group `group`, where `item`
/// stands under `group`.  The slots that are added are in `group`, and no two
/// of them are slots of one override.
fn read_group(slots: &mut Vec<PathSlot>, group: &str, item: &Item)
    ensures
        final(slots).deep_view() == old(slots).deep_view() + group_slots(
            group@,
            Some(item_view(*item)),
        ),
        ({
            let after = final(slots).deep_view();
            &&& forall|added: int|
                old(slots).len() <= added < after.len() ==> (#[trigger] after[added]).group
                    == group@
            &&& forall|first: int, second: int|
                old(slots).len() <= first < second < after.len() ==> (#[trigger] after[first]).name
                    != (#[trigger] after[second]).name
        }),
{
    let names = match table_keys(item) {
        Some(names) => names,
        None => {
            assert(keys_of(item_view(*item)).flat_map(slots_by_name(group@, item_view(*item)))
                =~= Seq::<PathSlotView>::empty());
            assert(slots.deep_view() =~= old(slots).deep_view() + Seq::<PathSlotView>::empty());
            return ;
        },
    };
    let ghost table = item_view(*item);
    let ghost by_name = slots_by_name(group@, table);
    let ghost start = slots.len() as int;
    let mut index: usize = 0;
    assert(names.deep_view().take(0).flat_map(by_name) =~= Seq::<PathSlotView>::empty());
    assert(slots.deep_view() =~= old(slots).deep_view() + Seq::<PathSlotView>::empty());
    while index < names.len()
        invariant
            index <= names.len(),
            table == item_view(*item),
            by_name == slots_by_name(group@, table),
            start == old(slots).len(),
            names.deep_view().no_duplicates(),
            slots.deep_view() == old(slots).deep_view() + names.deep_view().take(
                index as int,
            ).flat_map(by_name),
            forall|added: int|
                start <= added < slots.len() ==> (#[trigger] slots.deep_view()[added]).group
                    == group@ && exists|from: int|
                    0 <= from < index && names.deep_view()[from] == slots.deep_view()[added].name,
            forall|first: int, second: int|
                start <= first < second < slots.len() ==> (#[trigger] slots.deep_view()[first]).name
                    != (#[trigger] slots.deep_view()[second]).name,
        decreases names.len() - index,
    {
        let name = names[index].as_str();
        let ghost held = slots.deep_view();
        proof {
            names.deep_view().lemma_flat_map_take_append(by_name, index as int);
        }
        match item_get(item, name) {
            Some(entry) => match read_entry(group, name, entry) {
                Some(slot) => {
                    slots.push(slot);
                    assert(slots.deep_view() =~= held + seq![slot@]);
                    assert(slot@ == entry_slots(group@, name@, Some(item_view(*entry)))[0]);
                    assert(slot@.group == group@ && slot@.name == names.deep_view()[index as int]);
                },
                None => {},
            },
            None => {},
        }
        assert(slots.deep_view() =~= held + by_name(name@));
        proof {
            assert forall|added: int| start <= added < slots.len() implies (
            #[trigger] slots.deep_view()[added]).group == group@ && exists|from: int|
                0 <= from < index + 1 && names.deep_view()[from] == slots.deep_view()[added].name by {
                if added < held.len() {
                    assert(slots.deep_view()[added] == held[added]);
                    let from = choose|from: int|
                        0 <= from < index && names.deep_view()[from] == held[added].name;
                    assert(names.deep_view()[from] == slots.deep_view()[added].name);
                } else {
                    assert(names.deep_view()[index as int] == slots.deep_view()[added].name);
                }
            }
            assert forall|first: int, second: int|
                start <= first < second < slots.len() implies (
            #[trigger] slots.deep_view()[first]).name != (
            #[trigger] slots.deep_view()[second]).name by {
                assert(slots.deep_view()[first] == held[first]);
                if second < held.len() {
                    assert(slots.deep_view()[second] == held[second]);
                } else {
                    let from = choose|from: int|
                        0 <= from < index && names.deep_view()[from] == held[first].name;
                    assert(names.deep_view()[from] != names.deep_view()[index as int]);
                }
            }
        }
        index = index + 1;
    }
    assert(names.deep_view().take(names.len() as int) =~= names.deep_view());
}

impl ManifestDocument {
    /// The manifest that `text` holds.
    pub fn parse(text: &str) -> (res: Result<ManifestDocument, PatchError>)
        ensures
            match res {
                Ok(manifest) => manifest_syntax(text@) == Some(manifest@),
                Err(error) => manifest_syntax(text@) is None && error is Parse,
            },
    {
        match parse_document(text) {
            Ok(document) => Ok(ManifestDocument { document }),
            Err(error) => Err(PatchError::Parse { detail: error_detail(&error) }),
        }
    }

    /// The text that the manifest is written out as.
    pub closed spec fn text(&self) -> Seq<char> {
        document_text(self.document)
    }

    /// The text of the manifest.
    pub fn render(&self) -> (text: String)
        ensures
            text@ == self.text(),
    {
        document_to_string(&self.document)
    }

    /// The slots of the override table in document order: one for each
    /// override that has a `path` attribute.  `None` where the manifest has
    /// no override table.
    pub fn path_slots(&self) -> (slots: Option<Vec<PathSlot>>)
        ensures
            match slots {
                Some(found) => override_slots(self@) == Some(found.deep_view())
                    && distinct_places(found.deep_view()),
                None => override_slots(self@) is None,
            },
    {
        let root = document_root(&self.document);
        let key = "patch";
        let table = match item_get(root, key) {
            Some(table) => table,
            None => {
                return None;
            },
        };
        let groups = match table_keys(table) {
            Some(groups) => groups,
            None => {
                return None;
            },
        };
        let ghost by_group = slots_by_group(item_view(*table));
        let mut slots: Vec<PathSlot> = Vec::new();
        let mut index: usize = 0;
        assert(groups.deep_view().take(0).flat_map(by_group) =~= Seq::<PathSlotView>::empty());
        assert(slots.deep_view() =~= Seq::<PathSlotView>::empty());
        while index < groups.len()
            invariant
                index <= groups.len(),
                by_group == slots_by_group(item_view(*table)),
                groups.deep_view().no_duplicates(),
                slots.deep_view() == groups.deep_view().take(index as int).flat_map(by_group),
                distinct_places(slots.deep_view()),
                forall|read: int|
                    0 <= read < slots.len() ==> exists|from: int|
                        0 <= from < index && groups.deep_view()[from] == (
                        #[trigger] slots.deep_view()[read]).group,
            decreases groups.len() - index,
        {
            let group = groups[index].as_str();
            let ghost held = slots.deep_view();
            proof {
                groups.deep_view().lemma_flat_map_take_append(by_group, index as int);
            }
            match item_get(table, group) {
                Some(item) => {
                    read_group(&mut slots, group, item);
                },
                None => {
                    assert(slots.deep_view() =~= held + Seq::<PathSlotView>::empty());
                },
            }
            proof {
                let now = slots.deep_view();
                assert forall|read: int| 0 <= read < now.len() implies exists|from: int|
                    0 <= from < index + 1 && groups.deep_view()[from] == (
                    #[trigger] now[read]).group by {
                    if read < held.len() {
                        assert(now[read] == held[read]);
                        let from = choose|from: int|
                            0 <= from < index && groups.deep_view()[from] == held[read].group;
                        assert(groups.deep_view()[from] == now[read].group);
                    } else {
                        assert(groups.deep_view()[index as int] == now[read].group);
                    }
                }
                assert forall|first: int, second: int|
                    0 <= first < second < now.len() implies (#[trigger] now[first]).group != (
                #[trigger] now[second]).group || now[first].name != now[second].name by {
                    if second < held.len() {
                        assert(now[first] == held[first] && now[second] == held[second]);
                    } else if first < held.len() {
                        assert(now[first] == held[first]);
                        let from = choose|from: int|
                            0 <= from < index && groups.deep_view()[from] == held[first].group;
                        assert(groups.deep_view()[from] != groups.deep_view()[index as int]);
                    }
                }
            }
            index = index + 1;
        }
        assert(groups.deep_view().take(groups.len() as int) =~= groups.deep_view());
        Some(slots)
    }

    /// What stands under `name` in the source group `group` of the override
    /// table.
    fn entry(&self, group: &str, name: &str) -> (found: Option<&Item>)
        ensures
            match found {
                Some(entry) => override_entry(self@, group@, name@) == Some(item_view(*entry)),
                None => override_entry(self@, group@, name@) is None,
            },
    {
        let root = document_root(&self.document);
        let key = "patch";
        match item_get(root, key) {
            Some(table) => match item_get(table, group) {
                Some(entries) => item_get(entries, name),
                None => None,
            },
            None => None,
        }
    }

    /// Whether the manifest has an override `name` in the source group
    /// `group`.
    pub fn has_override(&self, group: &str, name: &str) -> (found: bool)
        ensures
            found == is_override(self@, group@, name@),
    {
        match self.entry(group, name) {
            Some(entry) => table_keys(entry).is_some(),
            None => false,
        }
    }

    /// Whether the override `name` in the source group `group` has a text as
    /// its `path` attribute.
    pub fn has_path(&self, group: &str, name: &str) -> (found: bool)
        ensures
            found == (override_path(self@, group@, name@) is Some),
    {
        let key = "path";
        match self.entry(group, name) {
            Some(entry) => match item_get(entry, key) {
                Some(value) => item_as_str(value).is_some(),
                None => false,
            },
            None => false,
        }
    }

    /// Writes `path` as the `path` attribute of the override `name` in the
    /// source group `group`, where that override has a text as its `path`
    /// attribute, and says whether it has.  Where it has not, the manifest
    /// stays as it is, and so does its text.
    pub fn set_path(&mut self, group: &str, name: &str, path: &str) -> (written: bool)
        ensures
            written == (override_path(old(self)@, group@, name@) is Some),
            final(self)@ == with_path(old(self)@, group@, name@, path@),
            !written ==> final(self).text() == old(self).text(),
    {
        if self.has_path(group, name) {
            let table = "patch";
            let key = "path";
            set_text_at(&mut self.document, table, group, name, key, path);
            true
        } else {
            false
        }
    }

    /// Writes `paths[i]` as the `path` attribute at `slots[i]`, for each slot
    /// in turn.  Where no slot is one of an override with a text as its
    /// `path` attribute, nothing is written, and the text of the manifest
    /// stays as it is.
    pub fn set_paths(&mut self, slots: &Vec<PathSlot>, paths: &Vec<String>)
        requires
            slots.len() == paths.len(),
        ensures
            final(self)@ == with_paths(old(self)@, slots.deep_view(), paths.deep_view()),
            (forall|index: int|
                0 <= index < slots.len() ==> override_path(
                    old(self)@,
                    (#[trigger] slots[index])@.group,
                    slots[index]@.name,
                ) is None) ==> final(self).text() == old(self).text(),
    {
        let mut index: usize = 0;
        assert(slots.deep_view().take(0) =~= Seq::<PathSlotView>::empty());
        while index < slots.len()
            invariant
                index <= slots.len(),
                slots.len() == paths.len(),
                self@ == with_paths(
                    old(self)@,
                    slots.deep_view().take(index as int),
                    paths.deep_view().take(index as int),
                ),
                (forall|k: int|
                    0 <= k < index ==> override_path(
                        old(self)@,
                        (#[trigger] slots[k])@.group,
                        slots[k]@.name,
                    ) is None) ==> self.text() == old(self).text() && self@ == old(self)@,
            decreases slots.len() - index,
        {
            let slot = &slots[index];
            assert(slots.deep_view().take(index + 1).drop_last() =~= slots.deep_view().take(
                index as int,
            ));
            assert(paths.deep_view().take(index + 1).drop_last() =~= paths.deep_view().take(
                index as int,
            ));
            self.set_path(slot.group.as_str(), slot.name.as_str(), paths[index].as_str());
            index = index + 1;
        }
        assert(slots.deep_view().take(slots.len() as int) =~= slots.deep_view());
        assert(paths.deep_view().take(paths.len() as int) =~= paths.deep_view());
    }
}

} // verus!
