//! Route maps of web applications: which file of an archive serves a
//! request path, by glob patterns read from the application's JSON config.
use vstd::prelude::*;
use serde_json::Value;

verus! {

#[verifier::external_type_specification]
#[verifier::external_body]
pub struct ExGlobError(globset::Error);

#[verifier::external_type_specification]
#[verifier::external_body]
pub struct ExJsonValue(Value);

/// Whether `Glob::new` accepts the pattern.
pub uninterp spec fn glob_is_valid(pattern: Seq<char>) -> bool;

/// Whether `GlobSetBuilder::build` succeeds on these (valid) patterns.
pub uninterp spec fn glob_set_builds(patterns: Seq<Seq<char>>) -> bool;

/// Whether the glob pattern matches the path, as a `GlobSet` reports it.
pub uninterp spec fn glob_matches(pattern: Seq<char>, path: Seq<char>) -> bool;

/// The entries of the JSON object found under `member` of `value` (in the
/// object's key order), each key with the text of its value when that value is
/// a JSON string; `None` when `value` has no such member or it is no object.
pub uninterp spec fn json_object_member_entries(value: Value, member: Seq<char>) -> Option<Seq<(Seq<char>, Option<Seq<char>>)>>;

/// Every pattern is a valid glob.
pub open spec fn all_globs_valid(patterns: Seq<Seq<char>>) -> bool {
    forall|i: int| 0 <= i < patterns.len() ==> glob_is_valid(#[trigger] patterns[i])
}

/// Each position is smaller than the next.
pub open spec fn strictly_ascending(v: Seq<usize>) -> bool {
    forall|i: int, j: int| 0 <= i < j < v.len() ==> v[i] < v[j]
}

/// Whether `globset::Glob::new(pattern)` succeeds. Trusted only to depend on
/// the pattern alone; glob syntax is left to the name.
#[verifier::external_body]
fn glob_parses(pattern: &str) -> (r: bool)
    ensures
        r == glob_is_valid(pattern@),
{
    globset::Glob::new(pattern).is_ok()
}

/// Adds each pattern, in order, to a `globset::GlobSetBuilder` (as
/// `Glob::new` parses it), builds the set and gives `GlobSet::matches(path)`.
/// Trusted, as globset's source and documentation show: the call fails
/// exactly when a pattern is no valid glob or the set does not build; the
/// positions it gives are those of the patterns that match, each once, in
/// ascending order; an empty set builds and matches nothing. What matching a
/// glob means is left to the name.
#[verifier::external_body]
fn glob_set_matches(patterns: &Vec<String>, path: &str) -> (r: Result<Vec<usize>, globset::Error>)
    ensures
        r is Ok <==> (all_globs_valid(patterns.deep_view()) && glob_set_builds(patterns.deep_view())),
        r matches Ok(v) ==> strictly_ascending(v@),
        r is Ok || patterns@.len() > 0,
        r matches Ok(v) ==> v@.len() == 0 || patterns@.len() > 0,
        r matches Ok(v) ==> (forall|k: usize| v@.contains(k) <==> (k < patterns.len() && glob_matches(patterns[k as int]@, path@))),
{
    let mut builder = globset::GlobSetBuilder::new();
    for pattern in patterns.iter() {
        builder.add(globset::Glob::new(pattern)?);
    }
    Ok(builder.build()?.matches(path))
}

/// `value.get(member)` read with `as_object`, each entry's key with
/// `as_str` of its value, in the object's order. Trusted only to depend on the
/// value and the member; JSON structure is left to the name.
#[verifier::external_body]
fn object_member_entries(value: &Value, member: &str) -> (r: Option<Vec<(String, Option<String>)>>)
    ensures
        r.deep_view() == json_object_member_entries(*value, member@),
{
    let object = value.get(member)?.as_object()?;
    Some(object.iter().map(|(k, v)| (k.clone(), v.as_str().map(|s| s.to_string()))).collect())
}

/// The routes whose pattern is a valid glob, in order.
pub open spec fn valid_routes(routes: Seq<(Seq<char>, Seq<char>)>) -> Seq<(Seq<char>, Seq<char>)>
    decreases routes.len(),
{
    if routes.len() == 0 {
        routes
    } else if glob_is_valid(routes.last().0) {
        valid_routes(routes.drop_last()).push(routes.last())
    } else {
        valid_routes(routes.drop_last())
    }
}

/// The patterns of the routes.
pub open spec fn route_patterns(routes: Seq<(Seq<char>, Seq<char>)>) -> Seq<Seq<char>> {
    routes.map_values(|r: (Seq<char>, Seq<char>)| r.0)
}

/// `i` is the first route whose pattern matches `path`.
pub open spec fn is_first_match(routes: Seq<(Seq<char>, Seq<char>)>, path: Seq<char>, i: int) -> bool {
    &&& 0 <= i < routes.len()
    &&& glob_matches(routes[i].0, path)
    &&& forall|j: int| 0 <= j < i ==> !glob_matches(#[trigger] routes[j].0, path)
}

/// The first route whose pattern matches `path`, if any.
pub open spec fn first_match(routes: Seq<(Seq<char>, Seq<char>)>, path: Seq<char>) -> Option<int> {
    if exists|i: int| is_first_match(routes, path, i) {
        Some(choose|i: int| is_first_match(routes, path, i))
    } else {
        None
    }
}

/// Where a request path goes under a route map: with no routes, to itself;
/// when no pattern is a valid glob, to the archive's file name; when the
/// valid patterns do not build into a set, to itself; to the target of
/// the first valid pattern that matches it; else to the archive's file name.
/// The flag tells whether a route matched.
pub open spec fn route_for(routes: Seq<(Seq<char>, Seq<char>)>, path: Seq<char>, file_name: Seq<char>) -> (Seq<char>, bool) {
    let valid = valid_routes(routes);
    if routes.len() == 0 {
        (path, false)
    } else if valid.len() == 0 {
        (file_name, false)
    } else if !glob_set_builds(route_patterns(valid)) {
        (path, false)
    } else {
        match first_match(valid, path) {
            Some(i) => (valid[i].1, true),
            None => (file_name, false),
        }
    }
}

/// The route map with `key` sent to `value`: its entry replaced where the key
/// is already there, else added at the end.
pub open spec fn route_insert(routes: Seq<(Seq<char>, Seq<char>)>, key: Seq<char>, value: Seq<char>) -> Seq<(Seq<char>, Seq<char>)> {
    if exists|i: int| is_key_position(routes, key, i) {
        routes.update(choose|i: int| is_key_position(routes, key, i), (key, value))
    } else {
        routes.push((key, value))
    }
}

/// `i` is the first position of `key` in the route map.
pub open spec fn is_key_position(routes: Seq<(Seq<char>, Seq<char>)>, key: Seq<char>, i: int) -> bool {
    &&& 0 <= i < routes.len()
    &&& routes[i].0 == key
    &&& forall|j: int| 0 <= j < i ==> (#[trigger] routes[j]).0 != key
}

/// The route map read from JSON object entries: each key whose value is a
/// string is sent to that string, later entries replacing earlier ones.
pub open spec fn routes_from_entries(entries: Seq<(Seq<char>, Option<Seq<char>>)>) -> Seq<(Seq<char>, Seq<char>)>
    decreases entries.len(),
{
    if entries.len() == 0 {
        Seq::empty()
    } else {
        let prev = routes_from_entries(entries.drop_last());
        match entries.last().1 {
            Some(v) => route_insert(prev, entries.last().0, v),
            None => prev,
        }
    }
}

/// No pattern occurs twice.
pub open spec fn keys_distinct(routes: Seq<(Seq<char>, Seq<char>)>) -> bool {
    forall|i: int, j: int| 0 <= i < j < routes.len() ==> routes[i].0 != routes[j].0
}

/// Configuration for web applications served by AntTP: a map from route
/// patterns to the files that serve them (e.g. `blog/*` to `index.html`
/// for a single-page application).
pub struct AppConfig {
    route_map: Vec<(String, String)>,
}

impl AppConfig {
    /// A route map never holds a pattern twice.
    #[verifier::type_invariant]
    spec fn patterns_distinct(self) -> bool {
        keys_distinct(self.route_map.deep_view())
    }

    /// The route map, pattern to target, in order.
    pub closed spec fn routes(self) -> Seq<(Seq<char>, Seq<char>)> {
        self.route_map.deep_view()
    }

    /// Creates a new AppConfig with an empty route map.
    pub fn default() -> (r: AppConfig)
        ensures
            r.routes().len() == 0,
    {
        AppConfig { route_map: Vec::new() }
    }

    /// The route map, pattern to target, in order.
    pub fn route_map(&self) -> (r: &Vec<(String, String)>)
        ensures
            r.deep_view() == self.routes(),
            keys_distinct(r.deep_view()),
    {
        proof {
            use_type_invariant(self);
        }
        &self.route_map
    }
}

/// Sends `key` to `value` in a route list, replacing the target the key had.
fn insert_route(route_map: &mut Vec<(String, String)>, key: String, value: String)
    ensures
        final(route_map).deep_view() == route_insert(old(route_map).deep_view(), key@, value@),
{
    let ghost routes = route_map.deep_view();
    let n = route_map.len();
    let mut i: usize = 0;
    while i < n
        invariant
            n == route_map.len(),
            routes == route_map.deep_view(),
            routes == old(route_map).deep_view(),
            i <= n,
            forall|j: int| 0 <= j < i ==> routes[j].0 != key@,
        decreases n - i,
    {
        if route_map[i].0 == key {
            assert(routes[i as int].0 == key@);
            proof {
                assert(is_key_position(routes, key@, i as int));
                let k = choose|k: int| is_key_position(routes, key@, k);
                assert(k == i) by {
                    if k < i {
                        assert(routes[k].0 != key@);
                    } else if k > i {
                        assert(routes[i as int].0 != key@);
                    }
                }
            }
            let ghost kv = key@;
            let ghost vv = value@;
            route_map.set(i, (key, value));
            assert(route_map.deep_view() =~= routes.update(i as int, (kv, vv)));
            return;
        }
        i = i + 1;
    }
    route_map.push((key, value));
    assert(route_map.deep_view() =~= routes.push((key@, value@)));
}

/// There is only one first match.
proof fn lemma_first_match(routes: Seq<(Seq<char>, Seq<char>)>, path: Seq<char>, i: int)
    requires
        is_first_match(routes, path, i),
    ensures
        first_match(routes, path) == Some(i),
{
    let k = choose|k: int| is_first_match(routes, path, k);
    assert(is_first_match(routes, path, k));
    if k < i {
        assert(!glob_matches(routes[k].0, path));
    } else if i < k {
        assert(!glob_matches(routes[i].0, path));
    }
}

/// The route chosen from the positions of the matching patterns (`None` when
/// the glob set did not build): the first position's target.
pub open spec fn picked_route(
    targets: Seq<Seq<char>>,
    matches: Option<Seq<usize>>,
    path: Seq<char>,
    file_name: Seq<char>,
) -> (Seq<char>, bool) {
    match matches {
        None => (path, false),
        Some(v) => if v.len() == 0 {
            (file_name, false)
        } else {
            (targets[v[0] as int], true)
        },
    }
}

impl AppConfig {
    /// Chooses the route from what the glob set reported: `None` when the set
    /// did not build, else the positions, in ascending order, of the valid
    /// patterns that match; `targets` are those patterns' targets.
    pub fn pick_route(
        targets: &Vec<String>,
        matches: Option<Vec<usize>>,
        relative_path: String,
        archive_file_name: String,
    ) -> (r: (String, bool))
        requires
            matches matches Some(v) ==> forall|i: int| 0 <= i < v.len() ==> v[i] < targets.len(),
        ensures
            (r.0@, r.1) == picked_route(targets.deep_view(), matches.deep_view(), relative_path@, archive_file_name@),
    {
        match matches {
            None => (relative_path, false),
            Some(v) => {
                if v.len() > 0 {
                    (targets[v[0]].clone(), true)
                } else {
                    (archive_file_name, false)
                }
            },
        }
    }

    /// Resolves a request path through the route map: the target of the first
    /// route, among those whose pattern is a valid glob, whose pattern matches
    /// the path. With no routes, or when the globs do not build into a set, the
    /// path itself; when nothing matches, the archive's file name. The flag
    /// tells whether a route matched.
    pub fn resolve_route(&self, relative_path: String, archive_file_name: String) -> (r: (String, bool))
        ensures
            (r.0@, r.1) == route_for(self.routes(), relative_path@, archive_file_name@),
    {
        if self.route_map.len() == 0 {
            return (relative_path, false);
        }
        let ghost routes = self.routes();
        let mut patterns: Vec<String> = Vec::new();
        let mut targets: Vec<String> = Vec::new();
        let n = self.route_map.len();
        let mut i: usize = 0;
        while i < n
            invariant
                n == self.route_map.len(),
                routes == self.routes(),
                i <= n,
                patterns.len() == targets.len(),
                patterns.len() == valid_routes(routes.subrange(0, i as int)).len(),
                forall|j: int| 0 <= j < patterns.len() ==> #[trigger] patterns[j]@ == valid_routes(routes.subrange(0, i as int))[j].0,
                forall|j: int| 0 <= j < targets.len() ==> #[trigger] targets[j]@ == valid_routes(routes.subrange(0, i as int))[j].1,
            decreases n - i,
        {
            assert(routes.subrange(0, i + 1).drop_last() =~= routes.subrange(0, i as int));
            assert(routes.subrange(0, i + 1).last() == routes[i as int]);
            if glob_parses(self.route_map[i].0.as_str()) {
                patterns.push(self.route_map[i].0.clone());
                targets.push(self.route_map[i].1.clone());
            }
            i = i + 1;
        }
        assert(routes.subrange(0, n as int) =~= routes);
        let ghost valid = valid_routes(routes);
        assert(patterns.deep_view() =~= route_patterns(valid));
        assert(targets.deep_view() =~= valid.map_values(|r: (Seq<char>, Seq<char>)| r.1));
        let matches = match glob_set_matches(&patterns, relative_path.as_str()) {
            Ok(v) => Some(v),
            Err(_) => None,
        };
        proof {
            let path = relative_path@;
            match matches {
                Some(ref v) => {
                    if v.len() > 0 {
                        let m = v[0] as int;
                        assert(v@.contains(v[0]));
                        assert forall|j: int| 0 <= j < m implies !glob_matches(#[trigger] valid[j].0, path) by {
                            if glob_matches(valid[j].0, path) {
                                assert(patterns[j]@ == valid[j].0);
                                assert(v@.contains(j as usize));
                                let idx = choose|idx: int| 0 <= idx < v.len() && v[idx] == j as usize;
                                if idx > 0 {
                                    assert(v[0] < v[idx]);
                                }
                            }
                        }
                        assert(patterns[m]@ == valid[m].0);
                        lemma_first_match(valid, path, m);
                    } else {
                        assert forall|k: int| 0 <= k < valid.len() implies !glob_matches(#[trigger] valid[k].0, path) by {
                            assert(patterns[k]@ == valid[k].0);
                            if glob_matches(valid[k].0, path) {
                                assert(v@.contains(k as usize));
                            }
                        }
                    }
                    assert forall|j: int| 0 <= j < v.len() implies v[j] < targets.len() by {
                        assert(v@.contains(v[j]));
                    }
                },
                None => {
                    assert(all_globs_valid(patterns.deep_view())) by {
                        assert forall|j: int| 0 <= j < patterns.len() implies glob_is_valid(#[trigger] patterns.deep_view()[j]) by {
                            lemma_valid_routes_valid(routes);
                        }
                    }
                },
            }
        }
        Self::pick_route(&targets, matches, relative_path, archive_file_name)
    }

    /// Reads the route map from JSON object entries: each key whose value is a
    /// string is sent to that string.
    pub fn from_route_entries(entries: Vec<(String, Option<String>)>) -> (r: AppConfig)
        ensures
            r.routes() == routes_from_entries(entries.deep_view()),
    {
        let ghost all = entries.deep_view();
        let mut route_map: Vec<(String, String)> = Vec::new();
        let n = entries.len();
        let mut i: usize = 0;
        assert(all.subrange(0, 0) =~= Seq::<(Seq<char>, Option<Seq<char>>)>::empty());
        assert(route_map.deep_view() =~= routes_from_entries(all.subrange(0, 0)));
        while i < n
            invariant
                n == entries.len(),
                all == entries.deep_view(),
                i <= n,
                route_map.deep_view() == routes_from_entries(all.subrange(0, i as int)),
            decreases n - i,
        {
            assert(all.subrange(0, i + 1).drop_last() =~= all.subrange(0, i as int));
            assert(all.subrange(0, i + 1).last() == all[i as int]);
            match &entries[i].1 {
                Some(value_str) => {
                    insert_route(&mut route_map, entries[i].0.clone(), value_str.clone());
                },
                None => {},
            }
            i = i + 1;
        }
        assert(all.subrange(0, n as int) =~= all);
        proof {
            lemma_routes_from_entries(all);
        }
        AppConfig { route_map }
    }

    /// Creates a new AppConfig from a JSON value: the string-valued entries of
    /// its `routeMap` object; an empty route map when there is none.
    pub fn from_json(json_value: Value) -> (r: AppConfig)
        ensures
            r.routes() == match json_object_member_entries(json_value, "routeMap"@) {
                Some(entries) => routes_from_entries(entries),
                None => Seq::empty(),
            },
    {
        match object_member_entries(&json_value, "routeMap") {
            Some(entries) => AppConfig::from_route_entries(entries),
            None => {
                let r = AppConfig::default();
                assert(r.routes() =~= Seq::empty());
                r
            },
        }
    }
}

/// Every route kept as valid has a valid pattern.
proof fn lemma_valid_routes_valid(routes: Seq<(Seq<char>, Seq<char>)>)
    ensures
        forall|j: int| 0 <= j < valid_routes(routes).len() ==> glob_is_valid(#[trigger] valid_routes(routes)[j].0),
    decreases routes.len(),
{
    if routes.len() > 0 {
        lemma_valid_routes_valid(routes.drop_last());
        let prev = valid_routes(routes.drop_last());
        let cur = valid_routes(routes);
        assert forall|j: int| 0 <= j < cur.len() implies glob_is_valid(#[trigger] cur[j].0) by {
            if j < prev.len() {
                assert(cur[j] == prev[j]);
            }
        }
    }
}

/// Every route kept as valid is one of the routes.
proof fn lemma_valid_routes_from(routes: Seq<(Seq<char>, Seq<char>)>)
    ensures
        forall|j: int| 0 <= j < valid_routes(routes).len() ==> exists|k: int| 0 <= k < routes.len() && routes[k] == #[trigger] valid_routes(routes)[j],
    decreases routes.len(),
{
    if routes.len() > 0 {
        lemma_valid_routes_from(routes.drop_last());
        let prev = valid_routes(routes.drop_last());
        let cur = valid_routes(routes);
        assert forall|j: int| 0 <= j < cur.len() implies exists|k: int| 0 <= k < routes.len() && routes[k] == #[trigger] cur[j] by {
            if j < prev.len() {
                assert(cur[j] == prev[j]);
                let k = choose|k: int| 0 <= k < routes.drop_last().len() && routes.drop_last()[k] == prev[j];
                assert(routes[k] == cur[j]);
            } else {
                assert(routes[routes.len() - 1] == cur[j]);
            }
        }
    }
}

/// A request path that a route matched goes to the target of one of the
/// routes, whose pattern is a valid glob that matches the path.
pub proof fn law_matched_path_goes_to_a_route_target(routes: Seq<(Seq<char>, Seq<char>)>, path: Seq<char>, file_name: Seq<char>)
    requires
        route_for(routes, path, file_name).1,
    ensures
        exists|k: int| 0 <= k < routes.len()
            && (#[trigger] routes[k]).1 == route_for(routes, path, file_name).0
            && glob_is_valid(routes[k].0)
            && glob_matches(routes[k].0, path),
{
    let valid = valid_routes(routes);
    let i = first_match(valid, path)->0;
    let i0 = choose|i: int| is_first_match(valid, path, i);
    assert(is_first_match(valid, path, i0));
    assert(i == i0);
    lemma_valid_routes_from(routes);
    lemma_valid_routes_valid(routes);
    let k = choose|k: int| 0 <= k < routes.len() && routes[k] == valid[i];
    assert(routes[k].1 == route_for(routes, path, file_name).0);
}

/// A configuration without routes sends every request path to itself.
pub proof fn law_no_routes_keep_the_path(config: AppConfig, path: Seq<char>, file_name: Seq<char>)
    requires
        config.routes().len() == 0,
    ensures
        route_for(config.routes(), path, file_name) == (path, false),
{
}

/// The keys that occur in the entries.
pub open spec fn entry_has_key(entries: Seq<(Seq<char>, Option<Seq<char>>)>, key: Seq<char>) -> bool {
    exists|i: int| 0 <= i < entries.len() && (#[trigger] entries[i]).0 == key
}

/// Every pattern of the route map read from entries is a key of the entries,
/// and no pattern occurs twice.
proof fn lemma_routes_from_entries(entries: Seq<(Seq<char>, Option<Seq<char>>)>)
    ensures
        keys_distinct(routes_from_entries(entries)),
        forall|j: int| 0 <= j < routes_from_entries(entries).len() ==> entry_has_key(entries, #[trigger] routes_from_entries(entries)[j].0),
    decreases entries.len(),
{
    if entries.len() > 0 {
        let prefix = entries.drop_last();
        lemma_routes_from_entries(prefix);
        let prev = routes_from_entries(prefix);
        let cur = routes_from_entries(entries);
        let (key, value) = entries.last();
        assert forall|j: int| 0 <= j < prev.len() implies entry_has_key(entries, #[trigger] prev[j].0) by {
            let i = choose|i: int| 0 <= i < prefix.len() && (#[trigger] prefix[i]).0 == prev[j].0;
            assert(entries[i] == prefix[i]);
        }
        assert(entries[entries.len() - 1].0 == key);
        match value {
            Some(v) => {
                if exists|i: int| is_key_position(prev, key, i) {
                    let p = choose|i: int| is_key_position(prev, key, i);
                    assert(cur == prev.update(p, (key, v)));
                    assert forall|a: int, b: int| 0 <= a < b < cur.len() implies cur[a].0 != cur[b].0 by {
                        assert(prev[a].0 != prev[b].0);
                    }
                    assert forall|j: int| 0 <= j < cur.len() implies entry_has_key(entries, #[trigger] cur[j].0) by {
                        if j != p {
                            assert(cur[j] == prev[j]);
                        }
                    }
                } else {
                    assert(cur == prev.push((key, v)));
                    assert forall|a: int, b: int| 0 <= a < b < cur.len() implies cur[a].0 != cur[b].0 by {
                        if b == prev.len() {
                            if cur[a].0 == key {
                                assert(is_key_position(prev, key, a)) by {
                                    assert forall|j: int| 0 <= j < a implies (#[trigger] prev[j]).0 != key by {
                                        assert(prev[j].0 != prev[a].0);
                                    }
                                }
                            }
                        } else {
                            assert(prev[a].0 != prev[b].0);
                        }
                    }
                    assert forall|j: int| 0 <= j < cur.len() implies entry_has_key(entries, #[trigger] cur[j].0) by {
                        if j < prev.len() {
                            assert(cur[j] == prev[j]);
                        }
                    }
                }
            },
            None => {},
        }
    }
}

/// The string-valued entries, each as a route, in order.
pub open spec fn string_entries(entries: Seq<(Seq<char>, Option<Seq<char>>)>) -> Seq<(Seq<char>, Seq<char>)>
    decreases entries.len(),
{
    if entries.len() == 0 {
        Seq::empty()
    } else {
        match entries.last().1 {
            Some(v) => string_entries(entries.drop_last()).push((entries.last().0, v)),
            None => string_entries(entries.drop_last()),
        }
    }
}

/// No key occurs twice among the entries, as in a JSON object.
pub open spec fn entry_keys_distinct(entries: Seq<(Seq<char>, Option<Seq<char>>)>) -> bool {
    forall|i: int, j: int| 0 <= i < j < entries.len() ==> entries[i].0 != entries[j].0
}

/// The route map read from a JSON object is a map: no pattern occurs twice.
/// When the object's keys are distinct, as they are in a JSON object, the map
/// holds exactly the object's string-valued entries, in the object's order.
pub proof fn law_json_routes_are_its_string_entries(entries: Seq<(Seq<char>, Option<Seq<char>>)>)
    ensures
        keys_distinct(routes_from_entries(entries)),
        entry_keys_distinct(entries) ==> routes_from_entries(entries) == string_entries(entries),
    decreases entries.len(),
{
    lemma_routes_from_entries(entries);
    if entries.len() > 0 && entry_keys_distinct(entries) {
        let prefix = entries.drop_last();
        assert(entry_keys_distinct(prefix));
        law_json_routes_are_its_string_entries(prefix);
        lemma_routes_from_entries(prefix);
        let prev = routes_from_entries(prefix);
        let (key, value) = entries.last();
        if let Some(v) = value {
            assert(!exists|i: int| is_key_position(prev, key, i)) by {
                if exists|i: int| is_key_position(prev, key, i) {
                    let i = choose|i: int| is_key_position(prev, key, i);
                    assert(entry_has_key(prefix, prev[i].0));
                    let k = choose|k: int| 0 <= k < prefix.len() && (#[trigger] prefix[k]).0 == prev[i].0;
                    assert(entries[k].0 != entries[entries.len() - 1].0);
                }
            }
        }
    }
}

/// A route whose pattern is a valid glob that matches the path.
pub open spec fn valid_match(route: (Seq<char>, Seq<char>), path: Seq<char>) -> bool {
    glob_is_valid(route.0) && glob_matches(route.0, path)
}

/// `m` is the first route whose pattern is a valid glob that matches the path.
pub open spec fn is_first_valid_match(routes: Seq<(Seq<char>, Seq<char>)>, path: Seq<char>, m: int) -> bool {
    &&& 0 <= m < routes.len()
    &&& valid_match(routes[m], path)
    &&& forall|j: int| 0 <= j < m ==> !valid_match(#[trigger] routes[j], path)
}

/// The first route of `routes` whose pattern matches the path is `route`.
pub open spec fn first_match_is(routes: Seq<(Seq<char>, Seq<char>)>, path: Seq<char>, route: (Seq<char>, Seq<char>)) -> bool {
    match first_match(routes, path) {
        Some(i) => 0 <= i < routes.len() && routes[i] == route,
        None => false,
    }
}

/// The first valid route that matches is the first match among the valid routes.
proof fn lemma_first_valid_match(routes: Seq<(Seq<char>, Seq<char>)>, path: Seq<char>, k: int)
    requires
        0 <= k < routes.len(),
        valid_match(routes[k], path),
    ensures
        exists|m: int| #![trigger is_first_valid_match(routes, path, m)] is_first_valid_match(routes, path, m)
            && m <= k
            && first_match_is(valid_routes(routes), path, routes[m]),
    decreases routes.len(),
{
    let r1 = routes.drop_last();
    let v = valid_routes(routes);
    let v1 = valid_routes(r1);
    let last = routes.last();
    assert(v == v1 || v == v1.push(last));
    if exists|k1: int| 0 <= k1 < r1.len() && valid_match(#[trigger] r1[k1], path) {
        let k1 = choose|k1: int| 0 <= k1 < r1.len() && valid_match(#[trigger] r1[k1], path);
        let kk = if k < r1.len() { k } else { k1 };
        assert(r1[kk] == routes[kk]);
        lemma_first_valid_match(r1, path, kk);
        let m = choose|m: int| #![trigger is_first_valid_match(r1, path, m)] is_first_valid_match(r1, path, m)
            && m <= kk
            && first_match_is(v1, path, r1[m]);
        let i = first_match(v1, path)->0;
        let i0 = choose|i: int| is_first_match(v1, path, i);
        assert(is_first_match(v1, path, i0));
        assert(i == i0);
        assert(is_first_match(v, path, i)) by {
            assert(v[i] == v1[i]);
            assert forall|j: int| 0 <= j < i implies !glob_matches(#[trigger] v[j].0, path) by {
                assert(v[j] == v1[j]);
            }
        }
        lemma_first_match(v, path, i);
        assert(is_first_valid_match(routes, path, m)) by {
            assert(routes[m] == r1[m]);
            assert forall|j: int| 0 <= j < m implies !valid_match(#[trigger] routes[j], path) by {
                assert(routes[j] == r1[j]);
            }
        }
        if k < r1.len() {
        } else {
            assert(m <= k);
        }
    } else {
        assert(k == routes.len() - 1) by {
            if k < r1.len() {
                assert(r1[k] == routes[k]);
            }
        }
        assert(glob_is_valid(last.0));
        assert(v == v1.push(last));
        let i = v1.len() as int;
        lemma_valid_routes_from(r1);
        lemma_valid_routes_valid(r1);
        assert(is_first_match(v, path, i)) by {
            assert forall|j: int| 0 <= j < i implies !glob_matches(#[trigger] v[j].0, path) by {
                assert(v[j] == v1[j]);
                let kj = choose|kj: int| 0 <= kj < r1.len() && r1[kj] == v1[j];
                assert(!valid_match(r1[kj], path));
            }
        }
        lemma_first_match(v, path, i);
        let m = routes.len() - 1;
        assert(is_first_valid_match(routes, path, m)) by {
            assert forall|j: int| 0 <= j < m implies !valid_match(#[trigger] routes[j], path) by {
                assert(routes[j] == r1[j]);
            }
        }
    }
}

/// The valid routes are exactly the routes whose pattern `Glob::new` accepts:
/// each of them is one of the routes and valid, and every route with a valid
/// pattern is among them.
pub proof fn law_valid_routes_are_all_routes_with_valid_globs(routes: Seq<(Seq<char>, Seq<char>)>)
    ensures
        forall|j: int| 0 <= j < valid_routes(routes).len() ==> glob_is_valid(#[trigger] valid_routes(routes)[j].0),
        forall|j: int| 0 <= j < valid_routes(routes).len() ==> exists|k: int| 0 <= k < routes.len() && routes[k] == #[trigger] valid_routes(routes)[j],
        forall|k: int| 0 <= k < routes.len() && glob_is_valid(#[trigger] routes[k].0) ==> exists|j: int| 0 <= j < valid_routes(routes).len() && valid_routes(routes)[j] == routes[k],
    decreases routes.len(),
{
    lemma_valid_routes_valid(routes);
    lemma_valid_routes_from(routes);
    if routes.len() > 0 {
        let r1 = routes.drop_last();
        law_valid_routes_are_all_routes_with_valid_globs(r1);
        let v = valid_routes(routes);
        let v1 = valid_routes(r1);
        assert forall|k: int| 0 <= k < routes.len() && glob_is_valid(#[trigger] routes[k].0) implies exists|j: int| 0 <= j < v.len() && v[j] == routes[k] by {
            if k < r1.len() {
                assert(r1[k] == routes[k]);
                let j = choose|j: int| 0 <= j < v1.len() && v1[j] == r1[k];
                assert(v[j] == v1[j]);
            } else {
                assert(v[v.len() - 1] == routes[k]);
            }
        }
    }
}

/// When the valid routes build into a glob set, a route whose pattern is a
/// valid glob matching the path is never passed over: the path goes to the
/// target of the first such route, at or before it, and the flag is set.
pub proof fn law_matching_valid_route_is_taken(routes: Seq<(Seq<char>, Seq<char>)>, path: Seq<char>, file_name: Seq<char>, k: int)
    requires
        0 <= k < routes.len(),
        glob_is_valid(routes[k].0),
        glob_matches(routes[k].0, path),
        glob_set_builds(route_patterns(valid_routes(routes))),
    ensures
        route_for(routes, path, file_name).1,
        exists|m: int| 0 <= m <= k
            && glob_is_valid(#[trigger] routes[m].0)
            && glob_matches(routes[m].0, path)
            && route_for(routes, path, file_name).0 == routes[m].1
            && forall|j: int| 0 <= j < m ==> !(glob_is_valid(#[trigger] routes[j].0) && glob_matches(routes[j].0, path)),
{
    lemma_first_valid_match(routes, path, k);
    let m = choose|m: int| #![trigger is_first_valid_match(routes, path, m)] is_first_valid_match(routes, path, m)
        && m <= k
        && first_match_is(valid_routes(routes), path, routes[m]);
    assert(valid_routes(routes).len() > 0);
    assert forall|j: int| 0 <= j < m implies !(glob_is_valid(#[trigger] routes[j].0) && glob_matches(routes[j].0, path)) by {
        assert(!valid_match(routes[j], path));
    }
}

} // verus!
