//! The contents of a public archive and the decisions taken on a request into one.
use vstd::prelude::*;
use xor_name::XorName;
use crate::text::{ends_with, join, strip_dot_slash, strip_leading_dot_slash, str_ends_with, join_from, push_decimal, decimal, contains, str_contains};
use crate::xor::{data_state_for, xor_name_bytes, xor_name_zero, XorHelper, XOR_NAME_LEN};

verus! {

/// Actions that can be taken for an archive request.
#[derive(Clone, Copy, Debug, PartialEq, Eq, Structural)]
pub enum ArchiveAction {
    /// Serve data from the archive.
    Data,
    /// List the contents of the archive.
    Listing,
    /// Redirect to another location.
    Redirect,
    /// Resource not found in the archive.
    NotFound,
}

/// State of data for caching purposes.
#[derive(Clone, Copy, Debug, PartialEq, Eq, Structural)]
pub enum DataState {
    /// Data has been modified since the client's last request.
    Modified,
    /// Data has not been modified since the client's last request.
    NotModified,
}

/// One file of a public archive, as the archive lists it.
pub struct ArchiveEntry {
    /// The file's path, `None` when the path is not valid UTF-8.
    pub path: Option<String>,
    /// Where the file's content is stored.
    pub data_address: XorName,
    /// Last modification time, in seconds since the Unix epoch.
    pub modified: u64,
    /// Size of the file in bytes.
    pub size: u64,
}

/// No UTF-8 path occurs twice, as in an archive, whose files are keyed by path.
pub open spec fn paths_distinct(entries: Seq<ArchiveEntry>) -> bool {
    forall|i: int, j: int|
        0 <= i < j < entries.len() && (#[trigger] entries[i]).path is Some && (#[trigger] entries[j]).path is Some
            ==> entries[i].path.deep_view() != entries[j].path.deep_view()
}

/// A public archive: its files, in the order the archive lists them (by path).
pub struct Archive {
    pub entries: Vec<ArchiveEntry>,
}

impl Archive {
    /// An archive with no files.
    pub fn new() -> (r: Archive)
        ensures
            r.entries@.len() == 0,
    {
        Archive { entries: Vec::new() }
    }
}

/// The `"./"`-less form of an entry's path, when it has a UTF-8 path.
pub open spec fn listed_path(e: ArchiveEntry) -> Option<Seq<char>> {
    match e.path {
        Some(p) => Some(strip_dot_slash(p@)),
        None => None,
    }
}

/// `i` is the first position in `s` where `p` holds.
pub open spec fn is_first_where(s: Seq<ArchiveEntry>, p: spec_fn(ArchiveEntry) -> bool, i: int) -> bool {
    &&& 0 <= i < s.len()
    &&& p(s[i])
    &&& forall|j: int| 0 <= j < i ==> !p(#[trigger] s[j])
}

/// The first position in `s` where `p` holds, if any.
pub open spec fn first_where(s: Seq<ArchiveEntry>, p: spec_fn(ArchiveEntry) -> bool) -> Option<int> {
    if exists|i: int| is_first_where(s, p, i) {
        Some(choose|i: int| is_first_where(s, p, i))
    } else {
        None
    }
}

/// There is only one first position.
proof fn lemma_first_where(s: Seq<ArchiveEntry>, p: spec_fn(ArchiveEntry) -> bool, i: int)
    requires
        is_first_where(s, p, i),
    ensures
        first_where(s, p) == Some(i),
{
    let k = choose|k: int| is_first_where(s, p, k);
    assert(is_first_where(s, p, k));
    if k < i {
        assert(!p(s[k]));
    } else if i < k {
        assert(!p(s[i]));
    }
}

/// When `p` holds nowhere there is no first position.
proof fn lemma_first_where_none(s: Seq<ArchiveEntry>, p: spec_fn(ArchiveEntry) -> bool)
    requires
        forall|j: int| 0 <= j < s.len() ==> !p(#[trigger] s[j]),
    ensures
        first_where(s, p) is None,
{
}

/// The bytes of the all-zero name.
pub open spec fn zero_name() -> Seq<u8> {
    Seq::new(XOR_NAME_LEN as nat, |i: int| 0u8)
}

} // verus!

verus! {

/// Compares a path with a file name by whole path components
/// (`Path::ends_with`): true when the name's components are the path's last ones.
pub uninterp spec fn path_ends_with(path: Seq<char>, child: Seq<char>) -> bool;

/// `std::path::Path::new(path).ends_with(child)`. Trusted only to give the
/// same answer for the same texts; what a path component is (separators,
/// `.` components) is left to the name.
#[verifier::external_body]
fn path_components_end_with(path: &str, child: &str) -> (r: bool)
    ensures
        r == path_ends_with(path@, child@),
{
    std::path::Path::new(path).ends_with(child)
}

/// An entry whose `"./"`-less path ends with `suffix`, character for character.
pub open spec fn entry_ends_with(e: ArchiveEntry, suffix: Seq<char>) -> bool {
    match listed_path(e) {
        Some(p) => ends_with(p, suffix),
        None => false,
    }
}

/// An entry whose path ends with the file name `name`, by whole components.
pub open spec fn entry_is_index(e: ArchiveEntry, name: Seq<char>) -> bool {
    match e.path {
        Some(p) => path_ends_with(p@, name),
        None => false,
    }
}

/// The first file whose `"./"`-less path ends with `suffix`.
pub open spec fn first_ending_with(entries: Seq<ArchiveEntry>, suffix: Seq<char>) -> Option<int> {
    first_where(entries, |e: ArchiveEntry| entry_ends_with(e, suffix))
}

/// The first file whose path ends with the file name `name`, by whole components.
pub open spec fn first_index_file(entries: Seq<ArchiveEntry>, name: Seq<char>) -> Option<int> {
    first_where(entries, |e: ArchiveEntry| entry_is_index(e, name))
}

/// The path that an item of an archive request names: the request's path
/// parts after the first (the archive's address), joined with `/`.
pub open spec fn item_path(path_parts: Seq<Seq<char>>) -> Seq<char> {
    join(path_parts.subrange(1, path_parts.len() as int), "/"@)
}

/// Why an item could not be resolved.
pub enum ArchiveError {
    /// No file of the archive ends with the path.
    ItemNotFound(String),
}

impl ArchiveError {
    /// The path that was not found.
    pub open spec fn missing_path(self) -> Seq<char> {
        match self {
            ArchiveError::ItemNotFound(p) => p@,
        }
    }

    /// The HTTP status that answers the error: 500, internal server error.
    pub open spec fn status(self) -> u16 {
        match self {
            ArchiveError::ItemNotFound(_) => 500,
        }
    }

    /// The HTTP status code that answers the error.
    pub fn status_code(&self) -> (r: u16)
        ensures
            r == self.status(),
            r == 500,
    {
        match self {
            ArchiveError::ItemNotFound(_) => 500,
        }
    }

    /// The error's message.
    pub fn message(&self) -> (r: String)
        ensures
            r@ == "Failed to find item ["@ + self.missing_path() + "] in archive"@,
    {
        match self {
            ArchiveError::ItemNotFound(p) => {
                let mut m = String::from_str("Failed to find item [");
                m.append(p.as_str());
                m.append("] in archive");
                m
            },
        }
    }
}

/// Information about an archive request: the path to serve, the address of
/// its content, the action to take and the cache state.
pub struct ArchiveInfo {
    /// The path string for the request.
    pub path_string: String,
    /// The resolved XOR address for the requested resource.
    pub resolved_xor_addr: XorName,
    /// The action to take for this request.
    pub action: ArchiveAction,
    /// The state of the data.
    pub state: DataState,
}

impl ArchiveInfo {
    /// Creates a new ArchiveInfo instance.
    pub fn new(path_string: String, resolved_xor_addr: XorName, action: ArchiveAction, state: DataState) -> (r: ArchiveInfo)
        ensures
            r == (ArchiveInfo { path_string, resolved_xor_addr, action, state }),
    {
        ArchiveInfo { path_string, resolved_xor_addr, action, state }
    }
}

/// Whether a request must be redirected: no file was resolved and the
/// request path does not end in `/`.
pub open spec fn moved_permanently(request_path: Seq<char>, resolved: Seq<char>) -> bool {
    resolved.len() == 0 && !(request_path.len() > 0 && request_path.last() == '/')
}

/// Helper for working with one public archive.
pub struct ArchiveHelper {
    archive: Archive,
}

impl ArchiveHelper {
    /// The archive's files are keyed by path: no UTF-8 path occurs twice.
    #[verifier::type_invariant]
    spec fn keyed_by_path(self) -> bool {
        paths_distinct(self.archive.entries@)
    }

    /// The archive's files, in order.
    pub closed spec fn entries(self) -> Seq<ArchiveEntry> {
        self.archive.entries@
    }

    /// Creates a new ArchiveHelper instance.
    pub fn new(public: Archive) -> (r: ArchiveHelper)
        requires
            paths_distinct(public.entries@),
        ensures
            r.entries() == public.entries@,
    {
        ArchiveHelper { archive: public }
    }

    /// Resolves the data address of the first file (in archive order) whose
    /// `"./"`-less path ends with the request's path parts after the first,
    /// joined with `/`.
    pub fn resolve_data_addr(&self, path_parts: Vec<String>) -> (r: Result<XorName, ArchiveError>)
        requires
            path_parts.len() >= 1,
        ensures
            ({
                let suffix = item_path(path_parts.deep_view());
                match first_ending_with(self.entries(), suffix) {
                    Some(i) => r == Ok::<XorName, ArchiveError>(self.entries()[i].data_address),
                    None => r matches Err(e) && e.missing_path() == suffix && e.status() == 500,
                }
            }),
            r matches Ok(a) ==> exists|i: int| 0 <= i < self.entries().len() && #[trigger] self.entries()[i].data_address == a
                && (self.entries()[i].path matches Some(p) && {
                    let q = strip_dot_slash(p@);
                    let s = item_path(path_parts.deep_view());
                    q.len() >= s.len() && q.subrange(q.len() - s.len(), q.len() as int) == s
                }),
    {
        proof {
            law_resolved_file_ends_with_item_path(self.entries(), item_path(path_parts.deep_view()));
        }
        let path_parts_string = join_from(&path_parts, 1, "/");
        let ghost suffix = path_parts_string@;
        let ghost p = |e: ArchiveEntry| entry_ends_with(e, suffix);
        let n = self.archive.entries.len();
        let mut i: usize = 0;
        while i < n
            invariant
                n == self.entries().len(),
                i <= n,
                suffix == path_parts_string@,
                suffix == item_path(path_parts.deep_view()),
                p == (|e: ArchiveEntry| entry_ends_with(e, suffix)),
                forall|j: int| 0 <= j < i ==> !p(#[trigger] self.entries()[j]),
            decreases n - i,
        {
            let entry = &self.archive.entries[i];
            match &entry.path {
                Some(key_str) => {
                    let normalized_key = strip_leading_dot_slash(key_str.as_str());
                    if str_ends_with(normalized_key, path_parts_string.as_str()) {
                        proof {
                            lemma_first_where(self.entries(), p, i as int);
                        }
                        return Ok(entry.data_address);
                    }
                },
                None => {},
            }
            i = i + 1;
        }
        proof {
            lemma_first_where_none(self.entries(), p);
        }
        Err(ArchiveError::ItemNotFound(path_parts_string))
    }

    /// Finds the index file of a directory: the first file whose path ends,
    /// by whole components, with `resolved_filename_string`. Gives the request
    /// path followed by the file's path, and the file's address; an empty path
    /// and the all-zero address when there is none.
    pub fn get_index(&self, request_path: String, resolved_filename_string: String) -> (r: (String, XorName))
        ensures
            ({
                let name = resolved_filename_string@;
                match first_index_file(self.entries(), name) {
                    Some(i) => self.entries()[i].path matches Some(p)
                        && r.0@ == request_path@ + p@
                        && r.1 == self.entries()[i].data_address,
                    None => r.0@.len() == 0 && xor_name_bytes(r.1) == zero_name(),
                }
            }),
    {
        let ghost name = resolved_filename_string@;
        let ghost p = |e: ArchiveEntry| entry_is_index(e, name);
        let n = self.archive.entries.len();
        let mut i: usize = 0;
        while i < n
            invariant
                n == self.entries().len(),
                i <= n,
                name == resolved_filename_string@,
                p == (|e: ArchiveEntry| entry_is_index(e, name)),
                forall|j: int| 0 <= j < i ==> !p(#[trigger] self.entries()[j]),
            decreases n - i,
        {
            let entry = &self.archive.entries[i];
            match &entry.path {
                Some(key_str) => {
                    if path_components_end_with(key_str.as_str(), resolved_filename_string.as_str()) {
                        proof {
                            lemma_first_where(self.entries(), p, i as int);
                        }
                        let mut path_string = request_path;
                        path_string.append(key_str.as_str());
                        return (path_string, entry.data_address);
                    }
                },
                None => {},
            }
            i = i + 1;
        }
        proof {
            lemma_first_where_none(self.entries(), p);
        }
        (String::new(), xor_name_zero())
    }

    /// Whether the request has moved permanently: nothing was resolved and
    /// the request path does not end in `/`.
    pub fn has_moved_permanently(&self, request_path: &str, resolved_relative_path_route: &String) -> (r: bool)
        ensures
            r == moved_permanently(request_path@, resolved_relative_path_route@),
            request_path@.len() > 0 && request_path@.last() == '/' ==> !r,
            resolved_relative_path_route@.len() > 0 ==> !r,
            resolved_relative_path_route@.len() == 0 && (request_path@.len() == 0 || request_path@.last() != '/') ==> r,
    {
        let n = request_path.unicode_len();
        let ends_in_slash = n > 0 && request_path.get_char(n - 1) == '/';
        resolved_relative_path_route.as_str().unicode_len() == 0 && !ends_in_slash
    }
}

/// The path, address, action and cache state that a request into an archive resolves to.
pub open spec fn resolves_to(
    info: ArchiveInfo,
    entries: Seq<ArchiveEntry>,
    path_parts: Seq<Seq<char>>,
    request_path: Seq<char>,
    if_none_match: Option<Seq<char>>,
    resolved: Seq<char>,
    has_route_map: bool,
) -> bool {
    let name = xor_name_bytes(info.resolved_xor_addr);
    if moved_permanently(request_path, resolved) {
        &&& info.path_string@ == resolved
        &&& name == zero_name()
        &&& info.action == ArchiveAction::Redirect
        &&& info.state == DataState::Modified
    } else if has_route_map {
        &&& info.action == ArchiveAction::Data
        &&& info.state == data_state_for(if_none_match, name)
        &&& match first_index_file(entries, resolved) {
            Some(i) => entries[i].path matches Some(p) && info.path_string@ == request_path + p@
                && info.resolved_xor_addr == entries[i].data_address,
            None => info.path_string@.len() == 0 && name == zero_name(),
        }
    } else if resolved.len() > 0 {
        &&& info.path_string@ == resolved
        &&& match first_ending_with(entries, item_path(path_parts)) {
            Some(i) => {
                &&& info.resolved_xor_addr == entries[i].data_address
                &&& info.action == ArchiveAction::Data
                &&& info.state == data_state_for(if_none_match, name)
            },
            None => {
                &&& name == zero_name()
                &&& info.action == ArchiveAction::NotFound
                &&& info.state == DataState::Modified
            },
        }
    } else {
        &&& info.path_string@ == resolved
        &&& name == zero_name()
        &&& info.action == ArchiveAction::Listing
        &&& info.state == DataState::Modified
    }
}

impl ArchiveHelper {
    /// Decides what to do with a request into the archive: redirect a
    /// directory request without its trailing `/`; with a route map, serve the
    /// index file; serve a named file or report it missing; otherwise list the
    /// archive. `request_path` and `if_none_match` are the request's path and
    /// its `If-None-Match` header value.
    pub fn resolve_archive_info(
        &self,
        path_parts: Vec<String>,
        request_path: String,
        if_none_match: Option<String>,
        resolved_relative_path_route: String,
        has_route_map: bool,
    ) -> (r: ArchiveInfo)
        requires
            resolved_relative_path_route@.len() > 0 && !has_route_map ==> path_parts.len() >= 1,
        ensures
            resolves_to(
                r,
                self.entries(),
                path_parts.deep_view(),
                request_path@,
                if_none_match.deep_view(),
                resolved_relative_path_route@,
                has_route_map,
            ),
            request_path@.len() > 0 && request_path@.last() == '/' ==> r.action != ArchiveAction::Redirect,
    {
        let xor_helper = XorHelper::new();
        if self.has_moved_permanently(request_path.as_str(), &resolved_relative_path_route) {
            return ArchiveInfo::new(
                resolved_relative_path_route,
                xor_name_zero(),
                ArchiveAction::Redirect,
                DataState::Modified,
            );
        }
        if has_route_map {
            let (resolved_path, resolved_xor_addr) = self.get_index(request_path, resolved_relative_path_route);
            let state = xor_helper.get_data_state(if_none_match, &resolved_xor_addr);
            return ArchiveInfo::new(resolved_path, resolved_xor_addr, ArchiveAction::Data, state);
        }
        if resolved_relative_path_route.as_str().unicode_len() > 0 {
            match self.resolve_data_addr(path_parts) {
                Ok(resolved_data_address) => {
                    let state = xor_helper.get_data_state(if_none_match, &resolved_data_address);
                    return ArchiveInfo::new(
                        resolved_relative_path_route,
                        resolved_data_address,
                        ArchiveAction::Data,
                        state,
                    );
                },
                Err(_) => {
                    return ArchiveInfo::new(
                        resolved_relative_path_route,
                        xor_name_zero(),
                        ArchiveAction::NotFound,
                        DataState::Modified,
                    );
                },
            }
        }
        ArchiveInfo::new(resolved_relative_path_route, xor_name_zero(), ArchiveAction::Listing, DataState::Modified)
    }
}

/// The RFC 3339 text (`%+`) of the UTC time `millis` milliseconds after the
/// Unix epoch, or `None` when that time is out of chrono's range.
pub uninterp spec fn utc_rfc3339_from_millis(millis: i64) -> Option<Seq<char>>;

/// `chrono::DateTime::from_timestamp_millis(millis)` formatted with `"%+"`.
/// Trusted only to give the same text for the same number; the calendar
/// arithmetic and chrono's range are left to the name.
#[verifier::external_body]
fn utc_time_text(millis: i64) -> (r: Option<String>)
    ensures
        r.deep_view() == utc_rfc3339_from_millis(millis),
{
    chrono::DateTime::from_timestamp_millis(millis).map(|dt| dt.format("%+").to_string())
}

/// A modification time, in seconds, whose value in milliseconds fits an `i64`.
pub open spec fn mtime_fits(modified: u64) -> bool {
    i64::MIN <= (modified as i64) * 1000 <= i64::MAX
}

/// A modification time in milliseconds.
pub open spec fn mtime_millis(modified: u64) -> i64 {
    ((modified as i64) * 1000) as i64
}

/// Every file with a UTF-8 path has a modification time that fits in milliseconds.
pub open spec fn mtimes_fit(entries: Seq<ArchiveEntry>) -> bool {
    forall|i: int| 0 <= i < entries.len() && (#[trigger] entries[i]).path is Some ==> mtime_fits(entries[i].modified)
}

/// One line of the HTML listing.
pub open spec fn html_item(path: Seq<char>) -> Seq<char> {
    "<li><a href=\""@ + path + "\">"@ + path + "</a></li>\n"@
}

/// The HTML lines of the files with a UTF-8 path, in order.
pub open spec fn html_items(entries: Seq<ArchiveEntry>) -> Seq<char>
    decreases entries.len(),
{
    if entries.len() == 0 {
        Seq::empty()
    } else {
        html_items(entries.drop_last()) + match listed_path(entries.last()) {
            Some(p) => html_item(p),
            None => Seq::empty(),
        }
    }
}

/// The archive listed as an HTML page.
pub open spec fn html_listing(entries: Seq<ArchiveEntry>) -> Seq<char> {
    "<html><body><h1>Archive Contents</h1><ul>"@ + html_items(entries) + "</ul></body></html>"@
}

/// One object of the JSON listing.
pub open spec fn json_object(path: Seq<char>, mtime: Seq<char>, size: u64) -> Seq<char> {
    "{\"name\": \""@ + path + "\", \"type\": \"file\", \"mtime\": \""@ + mtime
        + "\", \"size\": \""@ + decimal(size as nat) + "\"}"@
}

/// The modification time text of a file: for a file with a UTF-8 path, the
/// RFC 3339 text of its time when that time is in range.
pub open spec fn entry_time(e: ArchiveEntry) -> Option<Seq<char>> {
    match e.path {
        Some(_) => utc_rfc3339_from_millis(mtime_millis(e.modified)),
        None => None,
    }
}

/// The modification time texts of the files, in order.
pub open spec fn entry_times(entries: Seq<ArchiveEntry>) -> Seq<Option<Seq<char>>> {
    Seq::new(entries.len(), |i: int| entry_time(entries[i]))
}

/// The JSON objects of the files that have a UTF-8 path and a time text
/// (`times[i]` for the file at `i`), separated by `",\n"`, with their number.
pub open spec fn json_objects(entries: Seq<ArchiveEntry>, times: Seq<Option<Seq<char>>>) -> (Seq<char>, nat)
    decreases entries.len(),
{
    if entries.len() == 0 {
        (Seq::empty(), 0)
    } else {
        let (text, listed) = json_objects(entries.drop_last(), times.drop_last());
        let e = entries.last();
        match (listed_path(e), times.last()) {
            (Some(p), Some(mtime)) => (
                text + (if listed > 0 { ",\n"@ } else { Seq::empty() }) + json_object(p, mtime, e.size),
                listed + 1,
            ),
            _ => (text, listed),
        }
    }
}

/// The archive listed as a JSON array given the files' time texts: the
/// objects one per line, a comma after each object that another follows.
pub open spec fn json_listing_with(entries: Seq<ArchiveEntry>, times: Seq<Option<Seq<char>>>) -> Seq<char> {
    let (text, listed) = json_objects(entries, times);
    "[\n"@ + text + (if listed > 0 { "\n"@ } else { Seq::empty() }) + "]"@
}

/// The archive listed as a JSON array.
pub open spec fn json_listing(entries: Seq<ArchiveEntry>) -> Seq<char> {
    json_listing_with(entries, entry_times(entries))
}

/// Whether an `Accept` header value asks for JSON.
pub open spec fn accepts_json(accept: Option<Seq<char>>) -> bool {
    match accept {
        Some(a) => contains(a, "json"@),
        None => false,
    }
}

impl ArchiveHelper {
    /// Lists the files of the archive: as JSON when the `Accept` header value
    /// (`None` when absent or not text) contains `json`, as HTML otherwise.
    pub fn list_files(&self, accept: Option<String>) -> (r: String)
        requires
            accepts_json(accept.deep_view()) ==> mtimes_fit(self.entries()),
        ensures
            r@ == if accepts_json(accept.deep_view()) {
                json_listing(self.entries())
            } else {
                html_listing(self.entries())
            },
            accept is None ==> r@ == html_listing(self.entries()),
            accept matches Some(a) ==> ((exists|i: int| 0 <= i && i + 4 <= a@.len() && #[trigger] a@.subrange(i, i + 4) == seq!['j', 's', 'o', 'n'])
                ==> r@ == json_listing(self.entries())),
            accept matches Some(a) ==> ((forall|i: int| 0 <= i && i + 4 <= a@.len() ==> #[trigger] a@.subrange(i, i + 4) != seq!['j', 's', 'o', 'n'])
                ==> r@ == html_listing(self.entries())),
    {
        proof {
            match accept {
                Some(ref a) => law_accept_mentioning_json_asks_for_json(a@),
                None => {},
            }
        }
        let accepts_json = match &accept {
            Some(h) => str_contains(h.as_str(), "json"),
            None => false,
        };
        if accepts_json {
            self.list_files_json()
        } else {
            self.list_files_html()
        }
    }

    /// Lists the files of the archive as an HTML page, one link per file
    /// with a UTF-8 path, leading `"./"` taken off.
    pub fn list_files_html(&self) -> (r: String)
        ensures
            r@ == html_listing(self.entries()),
    {
        let mut output = String::from_str("<html><body><h1>Archive Contents</h1><ul>");
        let n = self.archive.entries.len();
        let mut i: usize = 0;
        while i < n
            invariant
                n == self.entries().len(),
                i <= n,
                output@ == "<html><body><h1>Archive Contents</h1><ul>"@ + html_items(
                    self.entries().subrange(0, i as int),
                ),
            decreases n - i,
        {
            let ghost before = output@;
            assert(self.entries().subrange(0, i + 1).drop_last() =~= self.entries().subrange(0, i as int));
            let entry = &self.archive.entries[i];
            match &entry.path {
                Some(path_str) => {
                    let filepath = strip_leading_dot_slash(path_str.as_str());
                    output.append("<li><a href=\"");
                    output.append(filepath);
                    output.append("\">");
                    output.append(filepath);
                    output.append("</a></li>\n");
                    assert(output@ =~= before + html_item(filepath@));
                },
                None => {
                    assert(output@ =~= before + Seq::<char>::empty());
                },
            }
            i = i + 1;
        }
        assert(self.entries().subrange(0, n as int) =~= self.entries());
        output.append("</ul></body></html>");
        output
    }

    /// Lists the files of the archive as a JSON array of objects with the
    /// file's name, type, modification time and size. Files without a UTF-8
    /// path, or whose time is out of range, are left out.
    pub fn list_files_json(&self) -> (r: String)
        requires
            mtimes_fit(self.entries()),
        ensures
            r@ == json_listing(self.entries()),
    {
        let count = self.archive.entries.len();
        let mut times: Vec<Option<String>> = Vec::new();
        let mut k: usize = 0;
        while k < count
            invariant
                count == self.entries().len(),
                k <= count,
                mtimes_fit(self.entries()),
                times.len() == k,
                forall|j: int| 0 <= j < k ==> #[trigger] times.deep_view()[j] == entry_time(self.entries()[j]),
            decreases count - k,
        {
            let entry = &self.archive.entries[k];
            let time = match &entry.path {
                Some(_) => {
                    assert(mtime_fits(entry.modified));
                    let millis = (entry.modified as i64) * 1000;
                    utc_time_text(millis)
                },
                None => None,
            };
            let ghost before = times.deep_view();
            times.push(time);
            assert(times.deep_view() =~= before.push(time.deep_view()));
            k = k + 1;
        }
        assert(times.deep_view() =~= entry_times(self.entries()));
        self.list_files_json_with_times(&times)
    }

    /// Lists the files of the archive as a JSON array, given each file's
    /// modification time text (`None` for a file that is left out).
    pub fn list_files_json_with_times(&self, mtimes: &Vec<Option<String>>) -> (r: String)
        requires
            mtimes.len() == self.entries().len(),
        ensures
            r@ == json_listing_with(self.entries(), mtimes.deep_view()),
    {
        let ghost times = mtimes.deep_view();
        let mut output = String::from_str("[\n");
        let count = self.archive.entries.len();
        let mut listed: usize = 0;
        let mut k: usize = 0;
        while k < count
            invariant
                count == self.entries().len(),
                count == mtimes.len(),
                times == mtimes.deep_view(),
                k <= count,
                listed as nat == json_objects(self.entries().subrange(0, k as int), times.subrange(0, k as int)).1,
                listed <= k,
                output@ == "[\n"@ + json_objects(self.entries().subrange(0, k as int), times.subrange(0, k as int)).0,
            decreases count - k,
        {
            let ghost before = output@;
            assert(self.entries().subrange(0, k + 1).drop_last() =~= self.entries().subrange(0, k as int));
            assert(self.entries().subrange(0, k + 1).last() == self.entries()[k as int]);
            assert(times.subrange(0, k + 1).drop_last() =~= times.subrange(0, k as int));
            assert(times.subrange(0, k + 1).last() == times[k as int]);
            assert(times[k as int] == mtimes[k as int].deep_view());
            let entry = &self.archive.entries[k];
            match &entry.path {
                Some(path_str) => {
                    match &mtimes[k] {
                        Some(mtime_iso) => {
                            let filepath = strip_leading_dot_slash(path_str.as_str());
                            if listed > 0 {
                                output.append(",\n");
                            }
                            let ghost sep = output@;
                            output.append("{\"name\": \"");
                            output.append(filepath);
                            output.append("\", \"type\": \"file\", \"mtime\": \"");
                            output.append(mtime_iso.as_str());
                            output.append("\", \"size\": \"");
                            push_decimal(&mut output, entry.size);
                            output.append("\"}");
                            assert(sep =~= before + (if listed > 0 { ",\n"@ } else { Seq::<char>::empty() }));
                            assert(output@ =~= sep + json_object(filepath@, mtime_iso@, entry.size));
                            listed = listed + 1;
                        },
                        None => {},
                    }
                },
                None => {},
            }
            k = k + 1;
        }
        assert(self.entries().subrange(0, count as int) =~= self.entries());
        assert(times.subrange(0, count as int) =~= times);
        if listed > 0 {
            output.append("\n");
        }
        output.append("]");
        output
    }
}

/// Only data that is served can be reported as not modified: a redirect, a
/// listing or a missing file always counts as modified, with the all-zero address.
pub proof fn law_only_served_data_is_unmodified(
    info: ArchiveInfo,
    entries: Seq<ArchiveEntry>,
    path_parts: Seq<Seq<char>>,
    request_path: Seq<char>,
    if_none_match: Option<Seq<char>>,
    resolved: Seq<char>,
    has_route_map: bool,
)
    requires
        resolves_to(info, entries, path_parts, request_path, if_none_match, resolved, has_route_map),
    ensures
        info.action != ArchiveAction::Data ==> info.state == DataState::Modified
            && xor_name_bytes(info.resolved_xor_addr) == zero_name(),
        info.state == DataState::NotModified ==> info.action == ArchiveAction::Data,
{
}

/// The objects' text is empty when nothing is listed and otherwise ends with
/// the closing brace of the last object.
proof fn lemma_json_objects_end(entries: Seq<ArchiveEntry>, times: Seq<Option<Seq<char>>>)
    ensures
        json_objects(entries, times).1 == 0 ==> json_objects(entries, times).0.len() == 0,
        json_objects(entries, times).1 > 0 ==> json_objects(entries, times).0.len() > 0
            && json_objects(entries, times).0.last() == '}',
    decreases entries.len(),
{
    if entries.len() > 0 {
        lemma_json_objects_end(entries.drop_last(), times.drop_last());
        let e = entries.last();
        match (listed_path(e), times.last()) {
            (Some(p), Some(mtime)) => {
                reveal_strlit("\"}");
                let o = json_object(p, mtime, e.size);
                assert(o.last() == '}');
                let (text, listed) = json_objects(entries.drop_last(), times.drop_last());
                let sep: Seq<char> = if listed > 0 { ",\n"@ } else { Seq::empty() };
                assert((text + sep + o).last() == o.last());
            },
            _ => {},
        }
    }
}

/// The JSON listing never puts a comma before the closing bracket: it is
/// `[` and `]` on their own lines, or it ends with the last object's `}`,
/// a line break and `]`.
pub proof fn law_json_listing_has_no_trailing_comma(entries: Seq<ArchiveEntry>, times: Seq<Option<Seq<char>>>)
    ensures
        json_listing_with(entries, times) == "[\n]"@
            || json_listing_with(entries, times).subrange(
                json_listing_with(entries, times).len() - 3,
                json_listing_with(entries, times).len() as int,
            ) == seq!['}', '\n', ']'],
{
    reveal_strlit("[\n");
    reveal_strlit("\n");
    reveal_strlit("]");
    reveal_strlit("[\n]");
    lemma_json_objects_end(entries, times);
    let (text, listed) = json_objects(entries, times);
    let l = json_listing_with(entries, times);
    if listed == 0 {
        assert(l =~= "[\n]"@);
    } else {
        assert(l.subrange(l.len() - 3, l.len() as int) =~= seq!['}', '\n', ']']);
    }
}

/// An `Accept` value asks for JSON exactly when the text `json` occurs in it,
/// at any position; no header asks for nothing.
pub proof fn law_accept_mentioning_json_asks_for_json(a: Seq<char>)
    ensures
        accepts_json(Some(a)) <==> exists|i: int| 0 <= i && i + 4 <= a.len() && #[trigger] a.subrange(i, i + 4) == seq!['j', 's', 'o', 'n'],
        !accepts_json(None),
{
    reveal_strlit("json");
    assert("json"@ =~= seq!['j', 's', 'o', 'n']);
    if accepts_json(Some(a)) {
        let i = choose|i: int| 0 <= i <= a.len() - "json"@.len() && #[trigger] a.subrange(i, i + "json"@.len()) == "json"@;
        assert(a.subrange(i, i + 4) == seq!['j', 's', 'o', 'n']);
    }
    if exists|i: int| 0 <= i && i + 4 <= a.len() && #[trigger] a.subrange(i, i + 4) == seq!['j', 's', 'o', 'n'] {
        let i = choose|i: int| 0 <= i && i + 4 <= a.len() && #[trigger] a.subrange(i, i + 4) == seq!['j', 's', 'o', 'n'];
        assert(a.subrange(i, i + "json"@.len()) == "json"@);
    }
}

/// A request whose path ends with `/` is never redirected; one whose path
/// does not, and that resolved to nothing, always is; one that resolved to a
/// file never is.
pub proof fn law_redirect_only_without_trailing_slash(request_path: Seq<char>, resolved: Seq<char>)
    ensures
        request_path.len() > 0 && request_path.last() == '/' ==> !moved_permanently(request_path, resolved),
        resolved.len() > 0 ==> !moved_permanently(request_path, resolved),
        resolved.len() == 0 && (request_path.len() == 0 || request_path.last() != '/') ==> moved_permanently(request_path, resolved),
{
}

/// A request into an archive whose path ends with `/` (such as `/`) is
/// answered without a redirect.
pub proof fn law_slash_ended_requests_are_not_redirected(
    info: ArchiveInfo,
    entries: Seq<ArchiveEntry>,
    path_parts: Seq<Seq<char>>,
    request_path: Seq<char>,
    if_none_match: Option<Seq<char>>,
    resolved: Seq<char>,
    has_route_map: bool,
)
    requires
        resolves_to(info, entries, path_parts, request_path, if_none_match, resolved, has_route_map),
        request_path.len() > 0,
        request_path.last() == '/',
    ensures
        info.action != ArchiveAction::Redirect,
        !has_route_map && resolved.len() == 0 ==> info.action == ArchiveAction::Listing,
{
}

/// Taking the leading `"./"`s off a path leaves the rest of it: what is left
/// ends the path, does not itself start with `"./"`, and what was taken is an
/// even number of characters alternating `.` and `/`.
pub proof fn law_strip_dot_slash_takes_only_leading_dot_slashes(s: Seq<char>)
    ensures
        strip_dot_slash(s).len() <= s.len(),
        (s.len() - strip_dot_slash(s).len()) % 2 == 0,
        s.subrange(s.len() - strip_dot_slash(s).len(), s.len() as int) == strip_dot_slash(s),
        forall|j: int| 0 <= j < s.len() - strip_dot_slash(s).len() ==> #[trigger] s[j] == if j % 2 == 0 { '.' } else { '/' },
        !(strip_dot_slash(s).len() >= 2 && strip_dot_slash(s)[0] == '.' && strip_dot_slash(s)[1] == '/'),
    decreases s.len(),
{
    if s.len() >= 2 && s[0] == '.' && s[1] == '/' {
        let t = s.subrange(2, s.len() as int);
        law_strip_dot_slash_takes_only_leading_dot_slashes(t);
        let r = strip_dot_slash(s);
        assert(r == strip_dot_slash(t));
        assert(s.subrange(s.len() - r.len(), s.len() as int) =~= t.subrange(t.len() - r.len(), t.len() as int));
        assert forall|j: int| 0 <= j < s.len() - r.len() implies #[trigger] s[j] == if j % 2 == 0 { '.' } else { '/' } by {
            if j >= 2 {
                assert(s[j] == t[j - 2]);
            }
        }
    } else {
        assert(s.subrange(0, s.len() as int) =~= s);
    }
}

/// The file an item path resolves to is the first file, in the archive's
/// order, whose `"./"`-less path has the item path as its last characters;
/// no file resolves when no such path exists.
pub proof fn law_resolved_file_ends_with_item_path(entries: Seq<ArchiveEntry>, suffix: Seq<char>)
    ensures
        match first_ending_with(entries, suffix) {
            Some(i) => {
                &&& 0 <= i < entries.len()
                &&& entries[i].path matches Some(p) && {
                    let q = strip_dot_slash(p@);
                    q.len() >= suffix.len() && q.subrange(q.len() - suffix.len(), q.len() as int) == suffix
                }
                &&& forall|j: int| 0 <= j < i ==> !(#[trigger] entries[j].path matches Some(p) && {
                    let q = strip_dot_slash(p@);
                    q.len() >= suffix.len() && q.subrange(q.len() - suffix.len(), q.len() as int) == suffix
                })
            },
            None => forall|j: int| 0 <= j < entries.len() ==> !(#[trigger] entries[j].path matches Some(p) && {
                let q = strip_dot_slash(p@);
                q.len() >= suffix.len() && q.subrange(q.len() - suffix.len(), q.len() as int) == suffix
            }),
        },
{
    let pr = |e: ArchiveEntry| entry_ends_with(e, suffix);
    if exists|i: int| is_first_where(entries, pr, i) {
        let i = choose|i: int| is_first_where(entries, pr, i);
        assert(is_first_where(entries, pr, i));
        assert forall|j: int| 0 <= j < i implies !(#[trigger] entries[j].path matches Some(p) && {
            let q = strip_dot_slash(p@);
            q.len() >= suffix.len() && q.subrange(q.len() - suffix.len(), q.len() as int) == suffix
        }) by {
            assert(!pr(entries[j]));
        }
    } else {
        assert forall|j: int| 0 <= j < entries.len() implies !(#[trigger] entries[j].path matches Some(p) && {
            let q = strip_dot_slash(p@);
            q.len() >= suffix.len() && q.subrange(q.len() - suffix.len(), q.len() as int) == suffix
        }) by {
            if pr(entries[j]) {
                // the first such position would exist
                lemma_some_first_where(entries, pr, j);
            }
        }
    }
}

/// Where `p` holds somewhere, it has a first position.
proof fn lemma_some_first_where(s: Seq<ArchiveEntry>, p: spec_fn(ArchiveEntry) -> bool, j: int)
    requires
        0 <= j < s.len(),
        p(s[j]),
    ensures
        exists|i: int| is_first_where(s, p, i),
    decreases j,
{
    if forall|k: int| 0 <= k < j ==> !p(#[trigger] s[k]) {
        assert(is_first_where(s, p, j));
    } else {
        let k = choose|k: int| 0 <= k < j && p(#[trigger] s[k]);
        lemma_some_first_where(s, p, k);
    }
}

} // verus!
