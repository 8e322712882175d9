//! The viewer's state and the decisions it makes in answer to the user:
//! what the sidebar lists, what selecting an entry shows, how the table is
//! sorted, and what opening or closing a folder does.
use vstd::prelude::*;

use crate::loader::{column_keys, is_index_of, LoadedData};
use crate::model::Record;
use crate::sorting::{row_order, sort_rows};
use crate::table::lemma_filtered_positions_increase;
use crate::strmap::{lookup, StrMap};
use crate::text::{contains_chars, contains_str, lowercase, str_equal, strings_view, to_lowercase};
use crate::text::Order;
use crate::tree::{
    build_other_tree, build_path_tree, flat_node, flatten_tree, folder_path, found_folder_path,
    is_tree_of, path_of_folder_id, rows_view, slashes_to_backslashes, ExpansionState, ExpansionView,
    FlatRow, TreeNode,
};

verus! {

/// Which list the sidebar shows.
#[derive(PartialEq, Eq, Structural, Clone, Copy, Debug)]
pub enum SearchBy {
    Folder,
    User,
    Other,
}

/// The positions, in order, of the names that contain `q`.
pub open spec fn names_with(names: Seq<Seq<char>>, q: Seq<char>) -> Seq<usize> {
    Seq::new(names.len(), |i: int| i as usize).filter(|i: usize| contains_chars(names[i as int], q))
}

/// The positions of the names whose lowercase form contains the lowercase
/// form of `query`; all positions when `query` is empty.
pub open spec fn sidebar_matches(lower: Seq<Seq<char>>, query: Seq<char>) -> Seq<usize> {
    if query.len() == 0 {
        Seq::new(lower.len(), |i: int| i as usize)
    } else {
        names_with(lower, lowercase(query))
    }
}

/// The lowercase forms of `names`.
pub open spec fn lower_all(names: Seq<Seq<char>>) -> Seq<Seq<char>> {
    names.map_values(|s: Seq<char>| lowercase(s))
}

/// Lowercases each name.
pub fn lowercase_names(names: &Vec<String>) -> (r: Vec<String>)
    ensures
        strings_view(r@) == lower_all(strings_view(names@)),
{
    let mut out: Vec<String> = Vec::new();
    let mut i: usize = 0;
    while i < names.len()
        invariant
            0 <= i <= names@.len(),
            strings_view(out@) == lower_all(strings_view(names@)).take(i as int),
        decreases names@.len() - i,
    {
        let ghost before = out@;
        out.push(to_lowercase(names[i].as_str()));
        assert(strings_view(out@) =~= strings_view(before).push(lowercase(names@[i as int]@)));
        assert(lower_all(strings_view(names@)).take(i + 1) =~= lower_all(strings_view(names@)).take(
            i as int,
        ).push(lowercase(names@[i as int]@)));
        i = i + 1;
    }
    assert(lower_all(strings_view(names@)).take(i as int) =~= lower_all(strings_view(names@)));
    out
}

/// The positions, in order, of the names that contain `q`.
pub fn names_containing(names: &Vec<String>, q: &str) -> (r: Vec<usize>)
    ensures
        r@ == names_with(strings_view(names@), q@),
{
    let ghost view = strings_view(names@);
    let ghost pred = |j: usize| contains_chars(view[j as int], q@);
    let mut out: Vec<usize> = Vec::new();
    let mut i: usize = 0;
    proof {
        reveal(Seq::filter);
        assert(Seq::new(0, |j: int| j as usize) =~= Seq::<usize>::empty());
    }
    while i < names.len()
        invariant
            view == strings_view(names@),
            pred == (|j: usize| contains_chars(view[j as int], q@)),
            0 <= i <= names@.len(),
            out@ == Seq::new(i as nat, |j: int| j as usize).filter(pred),
        decreases names@.len() - i,
    {
        let hit = contains_str(names[i].as_str(), q);
        proof {
            reveal(Seq::filter);
            assert(Seq::new((i + 1) as nat, |j: int| j as usize).drop_last() =~= Seq::new(
                i as nat,
                |j: int| j as usize,
            ));
            assert(hit == pred(i));
        }
        if hit {
            out.push(i);
        }
        i = i + 1;
    }
    out
}

/// The positions of the lowercase names that match `query` (see
/// `sidebar_matches`).
pub fn matching_names(lower: &Vec<String>, query: &str) -> (r: Vec<usize>)
    ensures
        r@ == sidebar_matches(strings_view(lower@), query@),
{
    if query.is_empty() {
        let mut out: Vec<usize> = Vec::new();
        let mut i: usize = 0;
        while i < lower.len()
            invariant
                0 <= i <= lower@.len(),
                out@ == Seq::new(i as nat, |j: int| j as usize),
            decreases lower@.len() - i,
        {
            out.push(i);
            assert(out@ =~= Seq::new((i + 1) as nat, |j: int| j as usize));
            i = i + 1;
        }
        return out;
    }
    let q = to_lowercase(query);
    names_containing(lower, q.as_str())
}

/// `tree`, `expansion` and `flat` belong together: `flat` is the tree
/// flattened under that expansion state.
pub open spec fn view_consistent(tree: TreeNode, expansion: ExpansionState, flat: Seq<FlatRow>) -> bool {
    &&& tree.wf()
    &&& tree.within_depth(usize::MAX as nat)
    &&& expansion.wf()
    &&& rows_view(flat) == flat_node(tree, Seq::empty(), 0, expansion@)
}

/// What is selected in the sidebar, with its tree, the tree's expansion
/// state and the tree's visible rows.
pub enum Selection {
    Nothing,
    Folder { name: String, tree: TreeNode, expansion: ExpansionState, flat: Vec<FlatRow> },
    User { name: String, tree: TreeNode, expansion: ExpansionState, flat: Vec<FlatRow> },
    Other { name: String, tree: TreeNode, expansion: ExpansionState, flat: Vec<FlatRow> },
}

/// Every tree held by a selection agrees with its rows.
pub open spec fn selection_ok(s: Selection) -> bool {
    match s {
        Selection::Nothing => true,
        Selection::Folder { tree, expansion, flat, .. } => view_consistent(tree, expansion, flat@),
        Selection::User { tree, expansion, flat, .. } => view_consistent(tree, expansion, flat@),
        Selection::Other { tree, expansion, flat, .. } => view_consistent(tree, expansion, flat@),
    }
}

/// Whether `sel` shows the entry `item` of the `by` list.
pub open spec fn shows(sel: Selection, by: SearchBy, item: Seq<char>) -> bool {
    match sel {
        Selection::Folder { name, .. } => by == SearchBy::Folder && name@ == item,
        Selection::User { name, .. } => by == SearchBy::User && name@ == item,
        Selection::Other { name, .. } => by == SearchBy::Other && name@ == item,
        Selection::Nothing => false,
    }
}

/// The record indices an index holds for `name` (none when absent).
pub open spec fn indices_for(idx: StrMap<Vec<usize>>, name: Seq<char>) -> Seq<usize> {
    match lookup(idx.entries@, name) {
        Some(v) => v@,
        None => Seq::empty(),
    }
}

/// The indices an index holds for a key are positions of records.
pub proof fn lemma_indices_in_range(idx: StrMap<Vec<usize>>, keys: Seq<Seq<char>>, name: Seq<char>)
    requires
        is_index_of(idx.entries@, keys),
    ensures
        forall|t: int| 0 <= t < indices_for(idx, name).len() ==> #[trigger] indices_for(idx, name)[t] < keys.len(),
{
    if crate::strmap::has_key(idx.entries@, name) {
        let j = choose|j: int| 0 <= j < idx.entries@.len() && crate::strmap::key(idx.entries@, j) == name;
        assert forall|t: int| 0 <= t < indices_for(idx, name).len() implies #[trigger] indices_for(idx, name)[t] < keys.len() by {
            assert(idx.entries@[j].1@[t] < keys.len());
        }
    }
}

/// Whether `sel` is the view of `name` from the `by` list: a folder is
/// shown as the tree of its records below the folder, a user or a sub-path
/// as the tree of the full paths of its records. A user's tree starts with
/// every folder open, so the whole access map shows at once; the trees of a
/// folder and of a sub-path, which can fan out wide, start with every
/// folder closed.
pub open spec fn is_selection_of(sel: Selection, by: SearchBy, name: Seq<char>, data: LoadedData) -> bool {
    let records = data.records@;
    let opened = ExpansionView { default_open: true, toggled: Set::empty() };
    let closed = ExpansionView { default_open: false, toggled: Set::empty() };
    match sel {
        Selection::Folder { name: n, tree, expansion, flat } => {
            &&& by == SearchBy::Folder
            &&& n@ == name
            &&& is_tree_of(tree, records, indices_for(data.folder_index, name), false)
            &&& expansion@ == closed
            &&& rows_view(flat@) == flat_node(tree, Seq::empty(), 0, closed)
        },
        Selection::User { name: n, tree, expansion, flat } => {
            &&& by == SearchBy::User
            &&& n@ == name
            &&& is_tree_of(tree, records, indices_for(data.identity_index, name), true)
            &&& expansion@ == opened
            &&& rows_view(flat@) == flat_node(tree, Seq::empty(), 0, opened)
        },
        Selection::Other { name: n, tree, expansion, flat } => {
            &&& by == SearchBy::Other
            &&& n@ == name
            &&& is_tree_of(tree, records, indices_for(data.other_index, name), true)
            &&& expansion@ == closed
            &&& rows_view(flat@) == flat_node(tree, Seq::empty(), 0, closed)
        },
        Selection::Nothing => false,
    }
}

/// The viewer's state apart from its window and its background loading.
pub struct ViewerState {
    pub data: LoadedData,
    pub unique_folders_lower: Vec<String>,
    pub unique_identities_lower: Vec<String>,
    pub unique_others_lower: Vec<String>,
    pub filtered_table: Vec<usize>,
    pub table_sort_col: usize,
    pub table_sort_desc: bool,
    pub search_by: SearchBy,
    pub sidebar_query: String,
    pub sidebar_cache: Vec<usize>,
    pub selection: Selection,
    pub loaded_path: Option<String>,
    pub error: Option<String>,
    pub loading: bool,
}

impl ViewerState {
    /// The sidebar's names for `by`.
    pub open spec fn names(&self, by: SearchBy) -> Seq<Seq<char>> {
        match by {
            SearchBy::Folder => strings_view(self.data.unique_folders@),
            SearchBy::User => strings_view(self.data.unique_identities@),
            SearchBy::Other => strings_view(self.data.unique_others@),
        }
    }

    /// The lowercase names kept for `by`.
    pub open spec fn lower_names(&self, by: SearchBy) -> Seq<Seq<char>> {
        match by {
            SearchBy::Folder => strings_view(self.unique_folders_lower@),
            SearchBy::User => strings_view(self.unique_identities_lower@),
            SearchBy::Other => strings_view(self.unique_others_lower@),
        }
    }

    /// The state is consistent: indexes agree with the records, the
    /// lowercase lists with the names, the table rows are records, the
    /// sidebar lists the matches of the query, and a selection's rows agree
    /// with its tree.
    pub open spec fn wf(&self) -> bool {
        &&& self.data.wf()
        &&& self.lower_names(SearchBy::Folder) == lower_all(self.names(SearchBy::Folder))
        &&& self.lower_names(SearchBy::User) == lower_all(self.names(SearchBy::User))
        &&& self.lower_names(SearchBy::Other) == lower_all(self.names(SearchBy::Other))
        &&& forall|i: int| 0 <= i < self.filtered_table@.len() ==> #[trigger] self.filtered_table@[i] < self.data.records@.len()
        &&& self.sidebar_cache@ == sidebar_matches(self.lower_names(self.search_by), self.sidebar_query@)
        &&& selection_ok(self.selection)
    }

    /// An empty viewer: no records, the folder list, nothing selected.
    pub fn new() -> (s: Self)
        ensures
            s.wf(),
            s.data.records@.len() == 0,
            s.search_by == SearchBy::Folder,
            s.sidebar_query@.len() == 0,
            s.filtered_table@.len() == 0,
            s.selection is Nothing,
            s.table_sort_col == 0,
            !s.table_sort_desc,
            !s.loading,
            s.error is None,
            s.loaded_path is None,
    {
        let data = LoadedData {
            records: Vec::new(),
            folder_index: StrMap::new(),
            identity_index: StrMap::new(),
            other_index: StrMap::new(),
            unique_folders: Vec::new(),
            unique_identities: Vec::new(),
            unique_others: Vec::new(),
        };
        let s = ViewerState {
            data,
            unique_folders_lower: Vec::new(),
            unique_identities_lower: Vec::new(),
            unique_others_lower: Vec::new(),
            filtered_table: Vec::new(),
            table_sort_col: 0,
            table_sort_desc: false,
            search_by: SearchBy::Folder,
            sidebar_query: String::new(),
            sidebar_cache: Vec::new(),
            selection: Selection::Nothing,
            loaded_path: None,
            error: None,
            loading: false,
        };
        proof {
            assert(column_keys(s.data.records@, 0) =~= Seq::<Seq<char>>::empty());
            assert(column_keys(s.data.records@, 1) =~= Seq::<Seq<char>>::empty());
            assert(column_keys(s.data.records@, 2) =~= Seq::<Seq<char>>::empty());
            assert(s.names(SearchBy::Folder) =~= Seq::<Seq<char>>::empty());
            assert(s.lower_names(SearchBy::Folder) =~= lower_all(s.names(SearchBy::Folder)));
            assert(s.lower_names(SearchBy::User) =~= lower_all(s.names(SearchBy::User)));
            assert(s.lower_names(SearchBy::Other) =~= lower_all(s.names(SearchBy::Other)));
            assert(crate::strmap::keys(s.data.folder_index.entries@) =~= Seq::<Seq<char>>::empty());
            assert(crate::strmap::keys(s.data.identity_index.entries@) =~= Seq::<Seq<char>>::empty());
            assert(crate::strmap::keys(s.data.other_index.entries@) =~= Seq::<Seq<char>>::empty());
            assert(strings_view(s.data.unique_folders@) =~= Seq::<Seq<char>>::empty());
            assert(strings_view(s.data.unique_identities@) =~= Seq::<Seq<char>>::empty());
            assert(strings_view(s.data.unique_others@) =~= Seq::<Seq<char>>::empty());
            assert(s.sidebar_query@ =~= Seq::<char>::empty());
            assert(sidebar_matches(s.lower_names(s.search_by), s.sidebar_query@) =~= Seq::<usize>::empty());
        }
        s
    }
}

impl ViewerState {
    /// Lists in the sidebar the names that match the query.
    pub fn refresh_sidebar_cache(&mut self)
        ensures
            *final(self) == (ViewerState { sidebar_cache: final(self).sidebar_cache, ..*old(self) }),
            final(self).sidebar_cache@ == sidebar_matches(
                old(self).lower_names(old(self).search_by),
                old(self).sidebar_query@,
            ),
    {
        let cache = match self.search_by {
            SearchBy::Folder => matching_names(&self.unique_folders_lower, self.sidebar_query.as_str()),
            SearchBy::User => matching_names(&self.unique_identities_lower, self.sidebar_query.as_str()),
            SearchBy::Other => matching_names(&self.unique_others_lower, self.sidebar_query.as_str()),
        };
        self.sidebar_cache = cache;
    }

    /// Takes over freshly loaded data: keeps lowercase copies of the name
    /// lists, clears the selection, shows every record in the table in
    /// file order, and lists the matching names in the sidebar.
    pub fn on_loaded(&mut self, path: String, data: LoadedData)
        requires
            old(self).wf(),
            data.wf(),
        ensures
            final(self).wf(),
            final(self).data == data,
            final(self).loaded_path == Some(path),
            final(self).selection is Nothing,
            final(self).table_sort_col == 0,
            !final(self).table_sort_desc,
            final(self).filtered_table@ == Seq::new(data.records@.len(), |i: int| i as usize),
            final(self).search_by == old(self).search_by,
            final(self).sidebar_query == old(self).sidebar_query,
            final(self).loading == old(self).loading,
            final(self).error == old(self).error,
    {
        self.unique_folders_lower = lowercase_names(&data.unique_folders);
        self.unique_identities_lower = lowercase_names(&data.unique_identities);
        self.unique_others_lower = lowercase_names(&data.unique_others);
        let n = data.records.len();
        self.data = data;
        self.loaded_path = Some(path);
        self.selection = Selection::Nothing;
        self.table_sort_col = 0;
        self.table_sort_desc = false;
        let mut all: Vec<usize> = Vec::new();
        let mut i: usize = 0;
        while i < n
            invariant
                0 <= i <= n,
                all@ == Seq::new(i as nat, |j: int| j as usize),
            decreases n - i,
        {
            all.push(i);
            assert(all@ =~= Seq::new((i + 1) as nat, |j: int| j as usize));
            i = i + 1;
        }
        self.filtered_table = all;
        self.refresh_sidebar_cache();
    }

    /// A load has started: no error is shown until it ends.
    pub fn begin_load(&mut self)
        ensures
            *final(self) == (ViewerState { loading: true, error: None, ..*old(self) }),
    {
        self.loading = true;
        self.error = None;
    }

    /// A load has ended, with data or with an error message.
    pub fn finish_load(&mut self, result: Result<(String, LoadedData), String>)
        requires
            old(self).wf(),
            result matches Ok((_, d)) ==> d.wf(),
        ensures
            final(self).wf(),
            !final(self).loading,
            match result {
                Ok((path, d)) => {
                    &&& final(self).data == d
                    &&& final(self).loaded_path == Some(path)
                    &&& final(self).selection is Nothing
                    &&& final(self).table_sort_col == 0
                    &&& !final(self).table_sort_desc
                    &&& final(self).filtered_table@ == Seq::new(d.records@.len(), |i: int| i as usize)
                    &&& final(self).search_by == old(self).search_by
                    &&& final(self).sidebar_query == old(self).sidebar_query
                    &&& final(self).error == old(self).error
                },
                Err(e) => *final(self) == (ViewerState { loading: false, error: Some(e), ..*old(self) }),
            },
    {
        self.loading = false;
        match result {
            Ok((path, data)) => self.on_loaded(path, data),
            Err(e) => {
                self.error = Some(e);
            },
        }
    }

    /// Switches the sidebar to another list: the query is cleared and the
    /// whole list shown. Choosing the list already shown changes nothing.
    pub fn set_search_by(&mut self, by: SearchBy)
        requires
            old(self).wf(),
        ensures
            final(self).wf(),
            by == old(self).search_by ==> *final(self) == *old(self),
            by != old(self).search_by ==> {
                &&& final(self).search_by == by
                &&& final(self).sidebar_query@.len() == 0
                &&& *final(self) == (ViewerState {
                    search_by: by,
                    sidebar_query: final(self).sidebar_query,
                    sidebar_cache: final(self).sidebar_cache,
                    ..*old(self)
                })
            },
    {
        if self.search_by != by {
            self.search_by = by;
            self.sidebar_query = String::new();
            self.refresh_sidebar_cache();
        }
    }

    /// Replaces the sidebar's query and lists the names that match it.
    pub fn set_query(&mut self, query: String)
        requires
            old(self).wf(),
        ensures
            final(self).wf(),
            final(self).sidebar_query == query,
            *final(self) == (ViewerState {
                sidebar_query: query,
                sidebar_cache: final(self).sidebar_cache,
                ..*old(self)
            }),
    {
        self.sidebar_query = query;
        self.refresh_sidebar_cache();
    }

    /// Whether `item`, an entry of the sidebar's current list, is the one
    /// whose tree is shown.
    pub fn is_shown(&self, item: &str) -> (r: bool)
        ensures
            r == shows(self.selection, self.search_by, item@),
    {
        match &self.selection {
            Selection::Folder { name, .. } => self.search_by == SearchBy::Folder && str_equal(name.as_str(), item),
            Selection::User { name, .. } => self.search_by == SearchBy::User && str_equal(name.as_str(), item),
            Selection::Other { name, .. } => self.search_by == SearchBy::Other && str_equal(name.as_str(), item),
            Selection::Nothing => false,
        }
    }

    /// Goes back from a tree to the table of all records.
    pub fn clear_selection(&mut self)
        requires
            old(self).wf(),
        ensures
            final(self).wf(),
            *final(self) == (ViewerState { selection: Selection::Nothing, ..*old(self) }),
    {
        self.selection = Selection::Nothing;
    }
}

/// Every entry the sidebar lists is a position in the current list, so it
/// can always be selected. Every operation of the viewer keeps `wf`, so
/// this holds before and after each frame.
pub proof fn lemma_sidebar_in_range(s: ViewerState)
    requires
        s.wf(),
    ensures
        forall|k: int|
            0 <= k < s.sidebar_cache@.len() ==> #[trigger] s.sidebar_cache@[k] < s.names(s.search_by).len(),
{
    let lower = s.lower_names(s.search_by);
    assert(lower.len() == s.names(s.search_by).len());
    let all = Seq::new(lower.len(), |i: int| i as usize);
    assert forall|k: int| 0 <= k < s.sidebar_cache@.len() implies #[trigger] s.sidebar_cache@[k] < s.names(
        s.search_by,
    ).len() by {
        let x = s.sidebar_cache@[k];
        if s.sidebar_query@.len() > 0 {
            let q = lowercase(s.sidebar_query@);
            let f = |i: usize| contains_chars(lower[i as int], q);
            assert(all.filter(f).contains(x));
            all.lemma_filter_contains_rev(f, x);
            let j = choose|j: int| 0 <= j < all.len() && all[j] == x;
        }
    }
}

/// The sidebar's search: for a query, the entries listed are, in list
/// order, exactly the positions of the names whose (already lowercase) form
/// holds the lowercase form of the query; an empty query lists every name.
pub proof fn lemma_sidebar_search(lower: Seq<Seq<char>>, query: Seq<char>)
    requires
        lower.len() <= usize::MAX,
    ensures
        forall|i: int|
            0 <= i < lower.len() ==> (#[trigger] sidebar_matches(lower, query).contains(i as usize) <==> (query.len()
                == 0 || contains_chars(lower[i], lowercase(query)))),
        forall|a: int, b: int|
            0 <= a < b < sidebar_matches(lower, query).len() ==> #[trigger] sidebar_matches(lower, query)[a]
                < #[trigger] sidebar_matches(lower, query)[b],
        forall|k: int|
            0 <= k < sidebar_matches(lower, query).len() ==> #[trigger] sidebar_matches(lower, query)[k] < lower.len(),
{
    broadcast use vstd::seq_lib::group_filter_ensures;
    let all = Seq::new(lower.len(), |i: int| i as usize);
    let q = lowercase(query);
    let pred = |i: usize| contains_chars(lower[i as int], q);
    assert forall|i: int| 0 <= i < all.len() implies #[trigger] all[i] as int == i by {}
    lemma_filtered_positions_increase(all, pred);
    assert forall|i: int|
        0 <= i < lower.len() implies (#[trigger] sidebar_matches(lower, query).contains(i as usize) <==> (query.len()
            == 0 || contains_chars(lower[i], q))) by {
        assert(all[i] == i as usize);
        if query.len() == 0 {
            assert(all.contains(i as usize));
        } else {
            assert(sidebar_matches(lower, query) == all.filter(pred));
            if pred(i as usize) {
                assert(all.filter(pred).contains(all[i]));
            }
            if all.filter(pred).contains(i as usize) {
                let k = choose|k: int| 0 <= k < all.filter(pred).len() && all.filter(pred)[k] == i as usize;
                assert(pred(all.filter(pred)[k]));
            }
        }
    }
    if query.len() == 0 {
        assert forall|a: int, b: int|
            0 <= a < b < sidebar_matches(lower, query).len() implies #[trigger] sidebar_matches(lower, query)[a]
                < #[trigger] sidebar_matches(lower, query)[b] by {
            assert(all[a] as int == a && all[b] as int == b);
        }
    }
}

/// The tree, expansion state and rows of a selected name.
fn view_of(records: &Vec<Record>, indices: &Vec<usize>, full: bool, open: bool) -> (r: (TreeNode, ExpansionState, Vec<FlatRow>))
    requires
        forall|t: int| 0 <= t < indices@.len() ==> #[trigger] indices@[t] < records@.len(),
    ensures
        is_tree_of(r.0, records@, indices@, full),
        r.1@ == (ExpansionView { default_open: open, toggled: Set::empty() }),
        view_consistent(r.0, r.1, r.2@),
{
    let tree = if full {
        build_path_tree(records.as_slice(), indices.as_slice())
    } else {
        build_other_tree(records.as_slice(), indices.as_slice())
    };
    let expansion = ExpansionState::new(open);
    let flat = flatten_tree(&tree, &expansion);
    (tree, expansion, flat)
}

/// The record indices an index holds for `name`, copied.
fn indices_of(idx: &StrMap<Vec<usize>>, name: &str) -> (r: Vec<usize>)
    requires
        idx.wf(),
    ensures
        r@ == indices_for(*idx, name@),
{
    match idx.get(name) {
        Some(v) => v.clone(),
        None => Vec::new(),
    }
}

impl ViewerState {
    /// Shows the tree of entry `idx` of the sidebar's current list.
    pub fn select_index(&mut self, idx: usize)
        requires
            old(self).wf(),
            idx < old(self).names(old(self).search_by).len(),
        ensures
            final(self).wf(),
            is_selection_of(
                final(self).selection,
                old(self).search_by,
                old(self).names(old(self).search_by)[idx as int],
                old(self).data,
            ),
            *final(self) == (ViewerState { selection: final(self).selection, ..*old(self) }),
    {
        match self.search_by {
            SearchBy::Folder => {
                let name = self.data.unique_folders[idx].clone();
                let indices = indices_of(&self.data.folder_index, name.as_str());
                proof {
                    lemma_indices_in_range(self.data.folder_index, column_keys(self.data.records@, 0), name@);
                }
                // A share root can fan out very wide: start collapsed.
                let (tree, expansion, flat) = view_of(&self.data.records, &indices, false, false);
                self.selection = Selection::Folder { name, tree, expansion, flat };
            },
            SearchBy::User => {
                let name = self.data.unique_identities[idx].clone();
                let indices = indices_of(&self.data.identity_index, name.as_str());
                proof {
                    lemma_indices_in_range(self.data.identity_index, column_keys(self.data.records@, 2), name@);
                }
                // The whole access map of a user shows at once.
                let (tree, expansion, flat) = view_of(&self.data.records, &indices, true, true);
                self.selection = Selection::User { name, tree, expansion, flat };
            },
            SearchBy::Other => {
                let name = self.data.unique_others[idx].clone();
                let indices = indices_of(&self.data.other_index, name.as_str());
                proof {
                    lemma_indices_in_range(self.data.other_index, column_keys(self.data.records@, 1), name@);
                }
                // A sub-path can recur under many folders: start collapsed.
                let (tree, expansion, flat) = view_of(&self.data.records, &indices, true, false);
                self.selection = Selection::Other { name, tree, expansion, flat };
            },
        }
    }

    /// The full path of the folder `id` of the selected tree, for copying:
    /// for a folder's tree, the folder followed by the names of `id`; for a
    /// user's or a sub-path's tree, the full path of the first of its
    /// records filed at or below that folder, cut right after it.
    pub fn folder_row_path(&self, id: &str) -> (r: Option<String>)
        requires
            self.wf(),
        ensures
            match self.selection {
                Selection::Nothing => r is None,
                Selection::Folder { name, .. } => r matches Some(p) && p@ == name@ + slashes_to_backslashes(id@),
                Selection::User { name, .. } => found_folder_path(
                    self.data.records@,
                    indices_for(self.data.identity_index, name@),
                    id@,
                    r,
                ),
                Selection::Other { name, .. } => found_folder_path(
                    self.data.records@,
                    indices_for(self.data.other_index, name@),
                    id@,
                    r,
                ),
            },
    {
        match &self.selection {
            Selection::Nothing => None,
            Selection::Folder { name, .. } => Some(folder_path(name.as_str(), id)),
            Selection::User { name, .. } => {
                let indices = indices_of(&self.data.identity_index, name.as_str());
                proof {
                    lemma_indices_in_range(self.data.identity_index, column_keys(self.data.records@, 2), name@);
                }
                path_of_folder_id(&self.data.records, &indices, id)
            },
            Selection::Other { name, .. } => {
                let indices = indices_of(&self.data.other_index, name.as_str());
                proof {
                    lemma_indices_in_range(self.data.other_index, column_keys(self.data.records@, 1), name@);
                }
                path_of_folder_id(&self.data.records, &indices, id)
            },
        }
    }

    /// Opens or closes the folder `id` of the selected tree and recomputes
    /// its rows; without a selection nothing changes.
    pub fn toggle_node(&mut self, id: String)
        requires
            old(self).wf(),
        ensures
            final(self).wf(),
            *final(self) == (ViewerState { selection: final(self).selection, ..*old(self) }),
            match (old(self).selection, final(self).selection) {
                (Selection::Nothing, Selection::Nothing) => true,
                (Selection::Folder { name: n0, tree: t0, expansion: e0, .. }, Selection::Folder { name: n1, tree: t1, expansion: e1, .. }) =>
                    n1 == n0 && t1 == t0 && e1@ == e0@.toggle(id@),
                (Selection::User { name: n0, tree: t0, expansion: e0, .. }, Selection::User { name: n1, tree: t1, expansion: e1, .. }) =>
                    n1 == n0 && t1 == t0 && e1@ == e0@.toggle(id@),
                (Selection::Other { name: n0, tree: t0, expansion: e0, .. }, Selection::Other { name: n1, tree: t1, expansion: e1, .. }) =>
                    n1 == n0 && t1 == t0 && e1@ == e0@.toggle(id@),
                _ => false,
            },
    {
        let mut sel = Selection::Nothing;
        std::mem::swap(&mut sel, &mut self.selection);
        let next = match sel {
            Selection::Nothing => Selection::Nothing,
            Selection::Folder { name, tree, mut expansion, flat } => {
                expansion.toggle(id);
                let flat = flatten_tree(&tree, &expansion);
                Selection::Folder { name, tree, expansion, flat }
            },
            Selection::User { name, tree, mut expansion, flat } => {
                expansion.toggle(id);
                let flat = flatten_tree(&tree, &expansion);
                Selection::User { name, tree, expansion, flat }
            },
            Selection::Other { name, tree, mut expansion, flat } => {
                expansion.toggle(id);
                let flat = flatten_tree(&tree, &expansion);
                Selection::Other { name, tree, expansion, flat }
            },
        };
        self.selection = next;
    }

    /// A click on the header of column `col`: the same column again reverses
    /// the order, another column sorts by it ascending. The table's rows
    /// are then sorted by the column.
    pub fn click_sort(&mut self, col: usize)
        requires
            old(self).wf(),
        ensures
            final(self).wf(),
            final(self).table_sort_col == col,
            final(self).table_sort_desc == (col == old(self).table_sort_col && !old(self).table_sort_desc),
            final(self).filtered_table@.to_multiset() == old(self).filtered_table@.to_multiset(),
            forall|i: int, j: int|
                0 <= i < j < final(self).filtered_table@.len() ==> row_order(
                    final(self).data.records@,
                    col,
                    final(self).table_sort_desc,
                    final(self).filtered_table@[i],
                    final(self).filtered_table@[j],
                ) != Order::Greater,
            *final(self) == (ViewerState {
                table_sort_col: col,
                table_sort_desc: final(self).table_sort_desc,
                filtered_table: final(self).filtered_table,
                ..*old(self)
            }),
    {
        if self.table_sort_col == col {
            self.table_sort_desc = !self.table_sort_desc;
        } else {
            self.table_sort_col = col;
            self.table_sort_desc = false;
        }
        let desc = self.table_sort_desc;
        let ghost before = self.filtered_table@;
        sort_rows(&mut self.filtered_table, &self.data.records, col, desc);
        proof {
            assert forall|i: int| 0 <= i < self.filtered_table@.len() implies #[trigger] self.filtered_table@[i] < self.data.records@.len() by {
                let x = self.filtered_table@[i];
                self.filtered_table@.to_multiset_ensures();
                before.to_multiset_ensures();
                assert(self.filtered_table@.contains(x));
                assert(self.filtered_table@.to_multiset().count(x) > 0);
                assert(before.to_multiset().count(x) > 0);
                assert(before.contains(x));
            }
        }
    }
}

} // verus!
