//! Reference analysis and suggestion generation.
//!
//! Compares extracted registry references against the set of valid paths,
//! identifies broken references, and suggests corrections using explicit
//! rename rules (longest matching prefix wins) or, failing that, the unique
//! valid path that ends in the same leaf attribute.
use crate::scanner::RegistryRef;
use crate::text::{chars_of, string_from_chars};
use vstd::prelude::*;

verus! {

/// A broken registry reference with optional fix suggestion.
#[derive(Debug, Clone)]
pub struct BrokenRef {
    pub reference: RegistryRef,
    /// Suggested replacement path if one could be determined.
    pub suggestion: Option<String>,
    /// Explanation when no suggestion exists.
    pub reason: Option<String>,
}

// ---------------------------------------------------------------------------
// The model: paths are character sequences, the valid set and the rename
// rules are sequences of them.
// ---------------------------------------------------------------------------

/// The characters of each valid path.
pub open spec fn paths_of(v: Seq<String>) -> Seq<Seq<char>> {
    v.map_values(|s: String| s@)
}

/// The characters of each rename rule's old and new path.
pub open spec fn rules_of(v: Seq<(String, String)>) -> Seq<(Seq<char>, Seq<char>)> {
    v.map_values(|r: (String, String)| (r.0@, r.1@))
}

/// A valid-path set lists each path once.
pub open spec fn is_path_set(v: Seq<String>) -> bool {
    paths_of(v).no_duplicates()
}

/// `key` is `path` itself or a proper dot-delimited prefix of it.
pub open spec fn covers(key: Seq<char>, path: Seq<char>) -> bool {
    path == key || (key.len() < path.len() && path.subrange(0, key.len() as int) == key
        && path[key.len() as int] == '.')
}

/// Among the first `n` rules, the first one whose key covers `path` with
/// the greatest length.
pub open spec fn longest_rule(rules: Seq<(Seq<char>, Seq<char>)>, path: Seq<char>, n: int) -> Option<
    int,
>
    decreases n,
{
    if n <= 0 {
        None
    } else {
        let best = longest_rule(rules, path, n - 1);
        if covers(rules[n - 1].0, path) && (best is None || rules[best->0].0.len() < rules[n
            - 1].0.len()) {
            Some(n - 1)
        } else {
            best
        }
    }
}

/// `path` with the rule's key replaced by the rule's value; the rest of
/// the path is kept verbatim.
pub open spec fn renamed(rule: (Seq<char>, Seq<char>), path: Seq<char>) -> Seq<char> {
    if path == rule.0 {
        rule.1
    } else {
        rule.1 + seq!['.'] + path.subrange(rule.0.len() + 1 as int, path.len() as int)
    }
}

/// The result of the rename table on `path`, if any key covers it.
pub open spec fn rename_of(rules: Seq<(Seq<char>, Seq<char>)>, path: Seq<char>) -> Option<
    Seq<char>,
> {
    match longest_rule(rules, path, rules.len() as int) {
        Some(i) => Some(renamed(rules[i], path)),
        None => None,
    }
}

/// The last dot-separated segment of a path.
pub open spec fn leaf_of(p: Seq<char>) -> Seq<char>
    decreases p.len(),
{
    if p.len() == 0 {
        p
    } else if p.last() == '.' {
        Seq::empty()
    } else {
        leaf_of(p.drop_last()).push(p.last())
    }
}

/// `v` equals `leaf` or ends in `"." + leaf`.
pub open spec fn ends_in_leaf(v: Seq<char>, leaf: Seq<char>) -> bool {
    v == leaf || (leaf.len() < v.len() && v.subrange(v.len() - leaf.len(), v.len() as int)
        == leaf && v[v.len() - leaf.len() - 1] == '.')
}

pub open spec fn leaf_pred(leaf: Seq<char>) -> spec_fn(Seq<char>) -> bool {
    |v: Seq<char>| ends_in_leaf(v, leaf)
}

/// The valid paths that end in the leaf of `path`, in the set's order.
pub open spec fn leaf_matches(valid: Seq<Seq<char>>, path: Seq<char>) -> Seq<Seq<char>> {
    valid.filter(leaf_pred(leaf_of(path)))
}

/// The unique valid path with the same leaf as `path`, if there is exactly one.
pub open spec fn leaf_suggestion(valid: Seq<Seq<char>>, path: Seq<char>) -> Option<Seq<char>> {
    let m = leaf_matches(valid, path);
    if m.len() == 1 {
        Some(m[0])
    } else {
        None
    }
}

/// The suggestion for a broken `path`: the renamed path when it is valid,
/// else the leaf-uniqueness fallback.
pub open spec fn suggestion_for(
    path: Seq<char>,
    valid: Seq<Seq<char>>,
    rules: Seq<(Seq<char>, Seq<char>)>,
) -> Option<Seq<char>> {
    let c = rename_of(rules, path);
    if c is Some && valid.contains(c->0) {
        c
    } else {
        leaf_suggestion(valid, path)
    }
}

/// Lexicographic order on code points.
pub open spec fn lex_lt(a: Seq<char>, b: Seq<char>) -> bool
    decreases a.len(),
{
    if a.len() == 0 {
        b.len() > 0
    } else if b.len() == 0 {
        false
    } else if a[0] != b[0] {
        (a[0] as u32) < (b[0] as u32)
    } else {
        lex_lt(a.drop_first(), b.drop_first())
    }
}

/// The least element of `m` that lies strictly above `bound` (above
/// nothing, when `bound` is `None`).
pub open spec fn least_above(m: Seq<Seq<char>>, bound: Option<Seq<char>>) -> Option<Seq<char>>
    decreases m.len(),
{
    if m.len() == 0 {
        None
    } else {
        let rest = least_above(m.drop_last(), bound);
        let x = m.last();
        if (bound is None || lex_lt(bound->0, x)) && (rest is None || lex_lt(x, rest->0)) {
            Some(x)
        } else {
            rest
        }
    }
}

/// The `k` least elements of `m` above `bound`, in increasing order.
pub open spec fn least_k(m: Seq<Seq<char>>, k: nat, bound: Option<Seq<char>>) -> Seq<Seq<char>>
    decreases k,
{
    if k == 0 {
        Seq::empty()
    } else {
        match least_above(m, bound) {
            None => Seq::empty(),
            Some(x) => seq![x] + least_k(m, (k - 1) as nat, Some(x)),
        }
    }
}

/// The elements joined by `sep`.
pub open spec fn joined(xs: Seq<Seq<char>>, sep: Seq<char>) -> Seq<char>
    decreases xs.len(),
{
    if xs.len() == 0 {
        Seq::empty()
    } else if xs.len() == 1 {
        xs[0]
    } else {
        joined(xs.drop_last(), sep) + sep + xs.last()
    }
}

pub open spec fn digit(d: nat) -> char {
    seq!['0', '1', '2', '3', '4', '5', '6', '7', '8', '9'][d as int]
}

/// The decimal notation of `n`.
pub open spec fn decimal(n: nat) -> Seq<char>
    decreases n,
{
    if n < 10 {
        seq![digit(n)]
    } else {
        decimal(n / 10).push(digit(n % 10))
    }
}

/// How many examples an ambiguity message lists.
pub const MAX_EXAMPLES: usize = 3;

/// Why no suggestion exists for `path`: no valid path has its leaf, or
/// several do (the message lists the least few in lexicographic order).
pub open spec fn reason_for(path: Seq<char>, valid: Seq<Seq<char>>) -> Seq<char> {
    let m = leaf_matches(valid, path);
    let leaf = leaf_of(path);
    if m.len() == 0 {
        "no path ending in '"@ + leaf + "' exists"@
    } else {
        "ambiguous: "@ + decimal(m.len()) + " paths end in '"@ + leaf + "': "@ + joined(
            least_k(m, MAX_EXAMPLES as nat, None),
            ", "@,
        )
    }
}

pub open spec fn opt_view(o: Option<String>) -> Option<Seq<char>> {
    match o {
        Some(s) => Some(s@),
        None => None,
    }
}

/// `b` is the entry that the analysis owes for the broken reference `r`.
pub open spec fn entry_for(
    b: BrokenRef,
    r: RegistryRef,
    valid: Seq<Seq<char>>,
    rules: Seq<(Seq<char>, Seq<char>)>,
) -> bool {
    let s = suggestion_for(r.path@, valid, rules);
    &&& b.reference.same_as(&r)
    &&& opt_view(b.suggestion) == s
    &&& opt_view(b.reason) == (if s is None {
        Some(reason_for(r.path@, valid))
    } else {
        None
    })
}

pub open spec fn valid_pred(valid: Seq<Seq<char>>) -> spec_fn(RegistryRef) -> bool {
    |r: RegistryRef| valid.contains(r.path@)
}

pub open spec fn broken_pred(valid: Seq<Seq<char>>) -> spec_fn(RegistryRef) -> bool {
    |r: RegistryRef| !valid.contains(r.path@)
}

// ---------------------------------------------------------------------------
// Executable helpers on character vectors.
// ---------------------------------------------------------------------------

fn rows_of(v: &[String]) -> (r: Vec<Vec<char>>)
    ensures
        r@.len() == v@.len(),
        forall|i: int| 0 <= i < v@.len() ==> #[trigger] r@[i]@ == v@[i]@,
{
    let mut r: Vec<Vec<char>> = Vec::new();
    let mut i: usize = 0;
    while i < v.len()
        invariant
            i <= v@.len(),
            r@.len() == i,
            forall|k: int| 0 <= k < i ==> #[trigger] r@[k]@ == v@[k]@,
        decreases v@.len() - i,
    {
        r.push(chars_of(v[i].as_str()));
        i = i + 1;
    }
    r
}

fn seq_eq(a: &[char], b: &[char]) -> (r: bool)
    ensures
        r == (a@ == b@),
{
    if a.len() != b.len() {
        return false;
    }
    let mut i: usize = 0;
    while i < a.len()
        invariant
            a@.len() == b@.len(),
            i <= a@.len(),
            forall|k: int| 0 <= k < i ==> a@[k] == b@[k],
        decreases a@.len() - i,
    {
        if a[i] != b[i] {
            return false;
        }
        i = i + 1;
    }
    assert(a@ =~= b@);
    true
}

/// Whether `a[from..from + b.len()]` equals `b`.
fn equal_at(a: &[char], from: usize, b: &[char]) -> (r: bool)
    requires
        from + b@.len() <= a@.len(),
    ensures
        r == (a@.subrange(from as int, from + b@.len()) == b@),
{
    let alen = a.len();
    let mut i: usize = 0;
    while i < b.len()
        invariant
            alen == a@.len(),
            from + b@.len() <= a@.len(),
            i <= b@.len(),
            forall|k: int| 0 <= k < i ==> a@[from + k] == b@[k],
        decreases b@.len() - i,
    {
        if a[from + i] != b[i] {
            assert(a@.subrange(from as int, from + b@.len())[i as int] != b@[i as int]);
            return false;
        }
        i = i + 1;
    }
    assert(a@.subrange(from as int, from + b@.len()) =~= b@);
    true
}

fn covers_exec(key: &[char], path: &[char]) -> (r: bool)
    ensures
        r == covers(key@, path@),
{
    if key.len() == path.len() {
        seq_eq(key, path)
    } else if key.len() < path.len() {
        equal_at(path, 0, key) && path[key.len()] == '.'
    } else {
        false
    }
}

fn ends_in_leaf_exec(v: &[char], leaf: &[char]) -> (r: bool)
    ensures
        r == ends_in_leaf(v@, leaf@),
{
    if v.len() == leaf.len() {
        seq_eq(v, leaf)
    } else if leaf.len() < v.len() {
        equal_at(v, v.len() - leaf.len(), leaf) && v[v.len() - leaf.len() - 1] == '.'
    } else {
        false
    }
}

/// The characters of `p` after its last dot.
fn leaf_chars(p: &[char]) -> (r: Vec<char>)
    ensures
        r@ == leaf_of(p@),
{
    let mut j: usize = p.len();
    assert(p@.subrange(0, j as int) =~= p@);
    assert(p@.subrange(j as int, j as int) =~= Seq::<char>::empty());
    assert(p@ + Seq::<char>::empty() =~= p@);
    while j > 0 && p[j - 1] != '.'
        invariant
            j <= p@.len(),
            leaf_of(p@) == leaf_of(p@.subrange(0, j as int)) + p@.subrange(j as int, p@.len() as int),
        decreases j,
    {
        let ghost pre = p@.subrange(0, j as int);
        assert(pre.drop_last() =~= p@.subrange(0, j - 1));
        assert(p@.subrange(j - 1, p@.len() as int) =~= seq![p@[j - 1]] + p@.subrange(
            j as int,
            p@.len() as int,
        ));
        assert(leaf_of(pre) == leaf_of(pre.drop_last()).push(pre.last()));
        assert(leaf_of(pre.drop_last()).push(pre.last()) + p@.subrange(j as int, p@.len() as int)
            =~= leaf_of(pre.drop_last()) + p@.subrange(j - 1, p@.len() as int));
        j = j - 1;
    }
    assert(leaf_of(p@.subrange(0, j as int)) =~= Seq::<char>::empty());
    let mut r: Vec<char> = Vec::new();
    let mut k: usize = j;
    while k < p.len()
        invariant
            j <= k <= p@.len(),
            r@ == p@.subrange(j as int, k as int),
        decreases p@.len() - k,
    {
        r.push(p[k]);
        assert(p@.subrange(j as int, k + 1) =~= p@.subrange(j as int, k as int).push(p@[k as int]));
        k = k + 1;
    }
    assert(leaf_of(p@) =~= p@.subrange(j as int, p@.len() as int));
    r
}

fn lex_less(a: &[char], b: &[char]) -> (r: bool)
    ensures
        r == lex_lt(a@, b@),
{
    let mut i: usize = 0;
    assert(a@.subrange(0, a@.len() as int) =~= a@);
    assert(b@.subrange(0, b@.len() as int) =~= b@);
    while i < a.len() && i < b.len() && a[i] == b[i]
        invariant
            i <= a@.len(),
            i <= b@.len(),
            lex_lt(a@, b@) == lex_lt(
                a@.subrange(i as int, a@.len() as int),
                b@.subrange(i as int, b@.len() as int),
            ),
        decreases a@.len() - i,
    {
        let ghost sa = a@.subrange(i as int, a@.len() as int);
        let ghost sb = b@.subrange(i as int, b@.len() as int);
        assert(sa.drop_first() =~= a@.subrange(i + 1, a@.len() as int));
        assert(sb.drop_first() =~= b@.subrange(i + 1, b@.len() as int));
        i = i + 1;
    }
    let ghost sa = a@.subrange(i as int, a@.len() as int);
    let ghost sb = b@.subrange(i as int, b@.len() as int);
    if i == a.len() {
        i < b.len()
    } else if i == b.len() {
        false
    } else {
        assert(sa[0] == a@[i as int] && sb[0] == b@[i as int]);
        (a[i] as u32) < (b[i] as u32)
    }
}

/// Indices of the rows that end in `leaf`, in order.
fn leaf_match_indices(leaf: &[char], rows: &Vec<Vec<char>>) -> (r: Vec<usize>)
    ensures
        forall|t: int| 0 <= t < r@.len() ==> #[trigger] r@[t] < rows@.len(),
        r@.map_values(|k: usize| rows@[k as int]@) == rows@.map_values(|v: Vec<char>| v@).filter(
            leaf_pred(leaf@),
        ),
{
    let ghost all = rows@.map_values(|v: Vec<char>| v@);
    let mut r: Vec<usize> = Vec::new();
    let mut i: usize = 0;
    while i < rows.len()
        invariant
            i <= rows@.len(),
            all == rows@.map_values(|v: Vec<char>| v@),
            forall|t: int| 0 <= t < r@.len() ==> #[trigger] r@[t] < i,
            r@.map_values(|k: usize| rows@[k as int]@) == all.subrange(0, i as int).filter(
                leaf_pred(leaf@),
            ),
        decreases rows@.len() - i,
    {
        let ghost before = r@;
        assert(all.subrange(0, i + 1) =~= all.subrange(0, i as int).push(all[i as int]));
        proof {
            all.subrange(0, i as int).lemma_filter_push(all[i as int], leaf_pred(leaf@));
        }
        if ends_in_leaf_exec(rows[i].as_slice(), leaf) {
            r.push(i);
            assert(r@.map_values(|k: usize| rows@[k as int]@) =~= before.map_values(
                |k: usize| rows@[k as int]@,
            ).push(rows@[i as int]@));
        }
        i = i + 1;
    }
    assert(all.subrange(0, rows@.len() as int) =~= all);
    r
}

/// The decimal digits of `n`.
fn decimal_chars(n: usize) -> (r: Vec<char>)
    ensures
        r@ == decimal(n as nat),
    decreases n,
{
    let digits = ['0', '1', '2', '3', '4', '5', '6', '7', '8', '9'];
    assert(digits@ =~= seq!['0', '1', '2', '3', '4', '5', '6', '7', '8', '9']);
    if n < 10 {
        let mut r: Vec<char> = Vec::new();
        r.push(digits[n]);
        assert(r@ =~= seq![digit(n as nat)]);
        r
    } else {
        let mut r = decimal_chars(n / 10);
        r.push(digits[n % 10]);
        r
    }
}

fn push_all(out: &mut Vec<char>, s: &[char])
    ensures
        final(out)@ == old(out)@ + s@,
{
    let mut i: usize = 0;
    while i < s.len()
        invariant
            i <= s@.len(),
            out@ == old(out)@ + s@.subrange(0, i as int),
        decreases s@.len() - i,
    {
        out.push(s[i]);
        assert(s@.subrange(0, i + 1) =~= s@.subrange(0, i as int).push(s@[i as int]));
        assert(old(out)@ + s@.subrange(0, i + 1) =~= (old(out)@ + s@.subrange(0, i as int)).push(
            s@[i as int],
        ));
        i = i + 1;
    }
    assert(s@.subrange(0, s@.len() as int) =~= s@);
}

// ---------------------------------------------------------------------------
// The analysis.
// ---------------------------------------------------------------------------

/// Applies the rename table using longest-prefix-wins semantics.
///
/// Among the keys that equal `old_path` or are a proper dot-delimited
/// prefix of it, the longest one (the first listed, among equals) has its
/// part of the path replaced by the rule's value.
pub fn apply_rename_map(rename_map: &[(String, String)], old_path: &str) -> (r: Option<String>)
    ensures
        opt_view(r) == rename_of(rules_of(rename_map@), old_path@),
{
    let ghost rules = rules_of(rename_map@);
    let path = chars_of(old_path);
    let mut best: Option<usize> = None;
    let mut best_len: usize = 0;
    let mut i: usize = 0;
    while i < rename_map.len()
        invariant
            i <= rename_map@.len(),
            rules == rules_of(rename_map@),
            path@ == old_path@,
            best == (match longest_rule(rules, path@, i as int) {
                Some(b) => Some(b as usize),
                None => None::<usize>,
            }),
            longest_rule(rules, path@, i as int) matches Some(b) ==> 0 <= b < i && best_len
                == rules[b].0.len() && covers(rules[b].0, path@),
        decreases rename_map@.len() - i,
    {
        let key = chars_of(rename_map[i].0.as_str());
        assert(key@ == rules[i as int].0);
        if covers_exec(key.as_slice(), path.as_slice()) && (best.is_none() || best_len
            < key.len()) {
            best = Some(i);
            best_len = key.len();
        }
        i = i + 1;
    }
    match best {
        None => None,
        Some(b) => {
            let value = &rename_map[b].1;
            assert(value@ == rules[b as int].1);
            if best_len == path.len() {
                let key = chars_of(rename_map[b].0.as_str());
                assert(covers(key@, path@));
                Some(value.clone())
            } else {
                let mut out = chars_of(value.as_str());
                out.push('.');
                assert(out@ =~= rules[b as int].1 + seq!['.']);
                let mut k: usize = best_len + 1;
                let ghost start = out@;
                while k < path.len()
                    invariant
                        best_len + 1 <= k <= path@.len(),
                        out@ == start + path@.subrange(best_len + 1, k as int),
                    decreases path@.len() - k,
                {
                    out.push(path[k]);
                    assert(path@.subrange(best_len + 1, k + 1) =~= path@.subrange(
                        best_len + 1,
                        k as int,
                    ).push(path@[k as int]));
                    assert(start + path@.subrange(best_len + 1, k + 1) =~= (start
                        + path@.subrange(best_len + 1, k as int)).push(path@[k as int]));
                    k = k + 1;
                }
                assert(rules[b as int].0.len() < path@.len());
                assert(out@ =~= renamed(rules[b as int], path@));
                Some(string_from_chars(out.as_slice()))
            }
        },
    }
}

/// Searches for valid paths sharing the leaf attribute name of `old_path`.
///
/// Returns the valid path equal to the leaf or ending in `"." + leaf` when
/// exactly one exists; none or several give `None`.
pub fn suggest_by_leaf(old_path: &str, valid_paths: &[String]) -> (r: Option<String>)
    requires
        is_path_set(valid_paths@),
    ensures
        opt_view(r) == leaf_suggestion(paths_of(valid_paths@), old_path@),
{
    let rows = rows_of(valid_paths);
    assert(rows@.map_values(|v: Vec<char>| v@) =~= paths_of(valid_paths@));
    let path = chars_of(old_path);
    let leaf = leaf_chars(path.as_slice());
    let found = leaf_match_indices(leaf.as_slice(), &rows);
    if found.len() == 1 {
        let k = found[0];
        assert(found@.map_values(|k: usize| rows@[k as int]@)[0] == rows@[k as int]@);
        Some(valid_paths[k].clone())
    } else {
        None
    }
}

/// Explains why no suggestion could be generated for `path`.
pub fn failure_reason(path: &str, valid_paths: &[String]) -> (r: String)
    requires
        is_path_set(valid_paths@),
    ensures
        r@ == reason_for(path@, paths_of(valid_paths@)),
{
    let rows = rows_of(valid_paths);
    let ghost valid = paths_of(valid_paths@);
    assert(rows@.map_values(|v: Vec<char>| v@) =~= valid);
    let p = chars_of(path);
    let leaf = leaf_chars(p.as_slice());
    let found = leaf_match_indices(leaf.as_slice(), &rows);
    let ghost m = leaf_matches(valid, path@);
    let ghost fview = found@.map_values(|k: usize| rows@[k as int]@);
    assert(fview == m);
    assert(fview.len() == found@.len());
    let mut out: Vec<char> = Vec::new();
    if found.len() == 0 {
        push_all(&mut out, chars_of("no path ending in '").as_slice());
        push_all(&mut out, leaf.as_slice());
        push_all(&mut out, chars_of("' exists").as_slice());
        assert(out@ =~= "no path ending in '"@ + leaf_of(path@) + "' exists"@);
        return string_from_chars(out.as_slice());
    }
    push_all(&mut out, chars_of("ambiguous: ").as_slice());
    push_all(&mut out, decimal_chars(found.len()).as_slice());
    push_all(&mut out, chars_of(" paths end in '").as_slice());
    push_all(&mut out, leaf.as_slice());
    push_all(&mut out, chars_of("': ").as_slice());
    let ghost head = out@;
    assert(head =~= "ambiguous: "@ + decimal(m.len()) + " paths end in '"@ + leaf_of(path@) + "': "@);
    let sep = chars_of(", ");
    let mut shown: usize = 0;
    let mut bound: Option<usize> = None;
    let mut exhausted = false;
    let ghost listed: Seq<Seq<char>> = Seq::empty();
    while shown < MAX_EXAMPLES && !exhausted
        invariant
            exhausted ==> least_k(fview, (MAX_EXAMPLES - shown) as nat, match bound {
                Some(b) => Some(rows@[b as int]@),
                None => None,
            }) =~= Seq::<Seq<char>>::empty(),
            shown <= MAX_EXAMPLES,
            fview == found@.map_values(|k: usize| rows@[k as int]@),
            forall|t: int| 0 <= t < found@.len() ==> #[trigger] found@[t] < rows@.len(),
            sep@ == ", "@,
            bound matches Some(b) ==> b < rows@.len(),
            listed + least_k(fview, (MAX_EXAMPLES - shown) as nat, match bound {
                Some(b) => Some(rows@[b as int]@),
                None => None,
            }) == least_k(fview, MAX_EXAMPLES as nat, None),
            listed.len() == shown,
            out@ == head + joined(listed, ", "@),
        decreases (MAX_EXAMPLES - shown) + (if exhausted {
            0int
        } else {
            1int
        }),
    {
        let ghost bview = match bound {
            Some(b) => Some(rows@[b as int]@),
            None => None,
        };
        // The least match above the bound.
        let mut best: Option<usize> = None;
        let mut t: usize = 0;
        while t < found.len()
            invariant
                t <= found@.len(),
                fview == found@.map_values(|k: usize| rows@[k as int]@),
                forall|u: int| 0 <= u < found@.len() ==> #[trigger] found@[u] < rows@.len(),
                bound matches Some(b) ==> b < rows@.len(),
                bview == (match bound {
                    Some(b) => Some(rows@[b as int]@),
                    None => None,
                }),
                best matches Some(b) ==> b < rows@.len(),
                least_above(fview.subrange(0, t as int), bview) == (match best {
                    Some(b) => Some(rows@[b as int]@),
                    None => None,
                }),
            decreases found@.len() - t,
        {
            let k = found[t];
            let ghost pre = fview.subrange(0, t + 1);
            assert(pre.drop_last() =~= fview.subrange(0, t as int));
            assert(pre.last() == rows@[k as int]@);
            let above = match bound {
                None => true,
                Some(b) => lex_less(rows[b].as_slice(), rows[k].as_slice()),
            };
            let below = match best {
                None => true,
                Some(c) => lex_less(rows[k].as_slice(), rows[c].as_slice()),
            };
            if above && below {
                best = Some(k);
            }
            t = t + 1;
        }
        assert(fview.subrange(0, found@.len() as int) =~= fview);
        match best {
            None => {
                assert(least_k(fview, (MAX_EXAMPLES - shown) as nat, bview) =~= Seq::empty());
                exhausted = true;
            },
            Some(c) => {
                let ghost x = rows@[c as int]@;
                assert(least_k(fview, (MAX_EXAMPLES - shown) as nat, bview) == seq![x] + least_k(
                    fview,
                    (MAX_EXAMPLES - shown - 1) as nat,
                    Some(x),
                ));
                if shown > 0 {
                    push_all(&mut out, sep.as_slice());
                }
                push_all(&mut out, rows[c].as_slice());
                proof {
                    let nl = listed.push(x);
                    assert(nl.drop_last() =~= listed);
                    if shown == 0 {
                        assert(joined(listed, ", "@) =~= Seq::<char>::empty());
                        assert(joined(nl, ", "@) == x);
                        assert(head + Seq::<char>::empty() + x =~= head + x);
                    } else {
                        assert(joined(nl, ", "@) == joined(listed, ", "@) + ", "@ + x);
                        assert(head + joined(listed, ", "@) + ", "@ + x =~= head + (joined(
                            listed,
                            ", "@,
                        ) + ", "@ + x));
                    }
                    assert(nl + least_k(fview, (MAX_EXAMPLES - shown - 1) as nat, Some(x))
                        =~= listed + (seq![x] + least_k(
                        fview,
                        (MAX_EXAMPLES - shown - 1) as nat,
                        Some(x),
                    )));
                    listed = nl;
                }
                bound = Some(c);
                shown = shown + 1;
            },
        }
    }
    proof {
        if !exhausted {
            assert(least_k(fview, 0, match bound {
                Some(b) => Some(rows@[b as int]@),
                None => None,
            }) =~= Seq::empty());
        }
        assert(listed + Seq::<Seq<char>>::empty() =~= listed);
    }
    assert(listed == least_k(m, MAX_EXAMPLES as nat, None));
    assert(out@ == head + joined(least_k(m, MAX_EXAMPLES as nat, None), ", "@));
    string_from_chars(out.as_slice())
}

/// Attempts to find a valid replacement for `old_path`.
///
/// The rename table is tried first; its result is used when it is a valid
/// path. Otherwise the unique valid path with the same leaf, if any.
pub fn suggest_path(old_path: &str, valid_paths: &[String], rename_map: &[(String, String)]) -> (r:
    Option<String>)
    requires
        is_path_set(valid_paths@),
    ensures
        opt_view(r) == suggestion_for(old_path@, paths_of(valid_paths@), rules_of(rename_map@)),
{
    let renamed = apply_rename_map(rename_map, old_path);
    if let Some(new_path) = renamed {
        assert(rename_of(rules_of(rename_map@), old_path@) == Some(new_path@));
        let mut i: usize = 0;
        while i < valid_paths.len()
            invariant
                i <= valid_paths@.len(),
                forall|k: int| 0 <= k < i ==> valid_paths@[k]@ != new_path@,
                rename_of(rules_of(rename_map@), old_path@) == Some(new_path@),
            decreases valid_paths@.len() - i,
        {
            if valid_paths[i] == new_path {
                assert(paths_of(valid_paths@)[i as int] == new_path@);
                assert(paths_of(valid_paths@).contains(new_path@));

                return Some(new_path);
            }
            i = i + 1;
        }
        assert(!paths_of(valid_paths@).contains(new_path@));
    }
    suggest_by_leaf(old_path, valid_paths)
}

/// Analyzes references against valid registry paths.
///
/// Returns, in order, an entry for each reference whose path is not in
/// `valid_paths` (with its suggestion or the reason there is none), and the
/// number of references whose path is valid.
pub fn analyze(refs: &[RegistryRef], valid_paths: &[String], rename_map: &[(String, String)]) -> (r:
    (Vec<BrokenRef>, usize))
    requires
        is_path_set(valid_paths@),
    ensures
        r.1 == refs@.filter(valid_pred(paths_of(valid_paths@))).len(),
        r.0@.len() == refs@.filter(broken_pred(paths_of(valid_paths@))).len(),
        forall|k: int|
            0 <= k < r.0@.len() ==> entry_for(
                #[trigger] r.0@[k],
                refs@.filter(broken_pred(paths_of(valid_paths@)))[k],
                paths_of(valid_paths@),
                rules_of(rename_map@),
            ),
        r.1 + r.0@.len() == refs@.len(),
{
    let ghost valid = paths_of(valid_paths@);
    let ghost rules = rules_of(rename_map@);
    let mut broken: Vec<BrokenRef> = Vec::new();
    let mut valid_count: usize = 0;
    let mut i: usize = 0;
    while i < refs.len()
        invariant
            i <= refs@.len(),
            is_path_set(valid_paths@),
            valid == paths_of(valid_paths@),
            rules == rules_of(rename_map@),
            valid_count == refs@.subrange(0, i as int).filter(valid_pred(valid)).len(),
            broken@.len() == refs@.subrange(0, i as int).filter(broken_pred(valid)).len(),
            forall|k: int|
                0 <= k < broken@.len() ==> entry_for(
                    #[trigger] broken@[k],
                    refs@.subrange(0, i as int).filter(broken_pred(valid))[k],
                    valid,
                    rules,
                ),
            valid_count + broken@.len() == i,
        decreases refs@.len() - i,
    {
        let reference = &refs[i];
        let ghost pre = refs@.subrange(0, i as int);
        assert(refs@.subrange(0, i + 1) =~= pre.push(refs@[i as int]));
        proof {
            pre.lemma_filter_push(refs@[i as int], valid_pred(valid));
            pre.lemma_filter_push(refs@[i as int], broken_pred(valid));
        }
        let mut found = false;
        let mut j: usize = 0;
        while j < valid_paths.len()
            invariant
                j <= valid_paths@.len(),
                valid == paths_of(valid_paths@),
                found == exists|k: int| 0 <= k < j && valid[k] == reference.path@,
            decreases valid_paths@.len() - j,
        {
            assert(valid[j as int] == valid_paths@[j as int]@);
            if valid_paths[j] == reference.path {
                found = true;
            }
            j = j + 1;
        }
        if found {
            valid_count = valid_count + 1;
        } else {
            let suggestion = suggest_path(reference.path.as_str(), valid_paths, rename_map);
            let reason = if suggestion.is_none() {
                Some(failure_reason(reference.path.as_str(), valid_paths))
            } else {
                None
            };
            broken.push(BrokenRef { reference: reference.duplicate(), suggestion, reason });
        }
        i = i + 1;
    }
    assert(refs@.subrange(0, refs@.len() as int) =~= refs@);
    (broken, valid_count)
}

/// Summary statistics from a detection run.
#[derive(Debug)]
pub struct Diagnostics {
    pub files_scanned: usize,
    pub total_refs: usize,
    pub valid_refs: usize,
    pub broken_refs: usize,
    pub suggestions_found: usize,
    pub unsuggestable: usize,
}

impl Default for Diagnostics {
    fn default() -> (r: Diagnostics)
        ensures
            r.files_scanned == 0 && r.total_refs == 0 && r.valid_refs == 0 && r.broken_refs == 0
                && r.suggestions_found == 0 && r.unsuggestable == 0,
    {
        Diagnostics {
            files_scanned: 0,
            total_refs: 0,
            valid_refs: 0,
            broken_refs: 0,
            suggestions_found: 0,
            unsuggestable: 0,
        }
    }
}

impl Diagnostics {
    /// Every reference is valid or broken, and every broken one has a
    /// suggestion or has none.
    pub open spec fn consistent(&self) -> bool {
        &&& self.valid_refs + self.broken_refs == self.total_refs
        &&& self.suggestions_found + self.unsuggestable == self.broken_refs
    }
}

/// Complete detection results.
#[derive(Debug)]
pub struct DetectionResult {
    pub broken: Vec<BrokenRef>,
    pub diagnostics: Diagnostics,
}

pub open spec fn has_suggestion() -> spec_fn(BrokenRef) -> bool {
    |b: BrokenRef| b.suggestion is Some
}

pub open spec fn lacks_suggestion() -> spec_fn(BrokenRef) -> bool {
    |b: BrokenRef| b.suggestion is None
}

/// Analyzes the references collected from `files_scanned` files and
/// summarizes the run.
pub fn detect(
    files_scanned: usize,
    refs: &[RegistryRef],
    valid_paths: &[String],
    rename_map: &[(String, String)],
) -> (r: DetectionResult)
    requires
        is_path_set(valid_paths@),
    ensures
        r.broken@.len() == refs@.filter(broken_pred(paths_of(valid_paths@))).len(),
        forall|k: int|
            0 <= k < r.broken@.len() ==> entry_for(
                #[trigger] r.broken@[k],
                refs@.filter(broken_pred(paths_of(valid_paths@)))[k],
                paths_of(valid_paths@),
                rules_of(rename_map@),
            ),
        r.diagnostics.files_scanned == files_scanned,
        r.diagnostics.total_refs == refs@.len(),
        r.diagnostics.valid_refs == refs@.filter(valid_pred(paths_of(valid_paths@))).len(),
        r.diagnostics.broken_refs == r.broken@.len(),
        r.diagnostics.suggestions_found == r.broken@.filter(has_suggestion()).len(),
        r.diagnostics.unsuggestable == r.broken@.filter(lacks_suggestion()).len(),
        r.diagnostics.consistent(),
{
    let (broken, valid_count) = analyze(refs, valid_paths, rename_map);
    let mut found: usize = 0;
    let mut missing: usize = 0;
    let mut k: usize = 0;
    while k < broken.len()
        invariant
            k <= broken@.len(),
            found == broken@.subrange(0, k as int).filter(has_suggestion()).len(),
            missing == broken@.subrange(0, k as int).filter(lacks_suggestion()).len(),
            found + missing == k,
        decreases broken@.len() - k,
    {
        proof {
            let pre = broken@.subrange(0, k as int);
            assert(broken@.subrange(0, k + 1) =~= pre.push(broken@[k as int]));
            pre.lemma_filter_push(broken@[k as int], has_suggestion());
            pre.lemma_filter_push(broken@[k as int], lacks_suggestion());
        }
        if broken[k].suggestion.is_some() {
            found = found + 1;
        } else {
            missing = missing + 1;
        }
        k = k + 1;
    }
    assert(broken@.subrange(0, broken@.len() as int) =~= broken@);
    let diagnostics = Diagnostics {
        files_scanned,
        total_refs: refs.len(),
        valid_refs: valid_count,
        broken_refs: broken.len(),
        suggestions_found: found,
        unsuggestable: missing,
    };
    DetectionResult { broken, diagnostics }
}

/// The accepted fixes of a detection: each broken reference that has a
/// suggestion, paired with it, in order.
pub fn fixes(broken: &[BrokenRef]) -> (r: Vec<(RegistryRef, String)>)
    ensures
        r@.len() == broken@.filter(has_suggestion()).len(),
        forall|k: int|
            0 <= k < r@.len() ==> {
                let b = broken@.filter(has_suggestion())[k];
                &&& (#[trigger] r@[k]).0.same_as(&b.reference)
                &&& b.suggestion matches Some(s) && r@[k].1@ == s@
            },
{
    let mut r: Vec<(RegistryRef, String)> = Vec::new();
    let mut k: usize = 0;
    while k < broken.len()
        invariant
            k <= broken@.len(),
            r@.len() == broken@.subrange(0, k as int).filter(has_suggestion()).len(),
            forall|t: int|
                0 <= t < r@.len() ==> {
                    let b = broken@.subrange(0, k as int).filter(has_suggestion())[t];
                    &&& (#[trigger] r@[t]).0.same_as(&b.reference)
                    &&& b.suggestion matches Some(s) && r@[t].1@ == s@
                },
        decreases broken@.len() - k,
    {
        proof {
            let pre = broken@.subrange(0, k as int);
            assert(broken@.subrange(0, k + 1) =~= pre.push(broken@[k as int]));
            pre.lemma_filter_push(broken@[k as int], has_suggestion());
        }
        if let Some(s) = &broken[k].suggestion {
            r.push((broken[k].reference.duplicate(), s.clone()));
        }
        k = k + 1;
    }
    assert(broken@.subrange(0, broken@.len() as int) =~= broken@);
    r
}

/// Every suggestion is a valid path, so re-checking a path that was
/// replaced by its suggestion finds it valid.
pub proof fn lemma_suggestion_is_valid(
    path: Seq<char>,
    valid: Seq<Seq<char>>,
    rules: Seq<(Seq<char>, Seq<char>)>,
)
    ensures
        suggestion_for(path, valid, rules) matches Some(s) ==> valid.contains(s),
{
    let m = leaf_matches(valid, path);
    if m.len() == 1 {
        valid.lemma_filter_contains_rev(leaf_pred(leaf_of(path)), m[0]);
        assert(m.contains(m[0]));
    }
}

/// The rename rule that applies is one whose key covers the path, and no
/// covering key is longer; when none applies, no key covers the path.
pub proof fn lemma_longest_prefix_wins(rules: Seq<(Seq<char>, Seq<char>)>, path: Seq<char>, n: int)
    requires
        0 <= n <= rules.len(),
    ensures
        longest_rule(rules, path, n) matches Some(b) ==> 0 <= b < n && covers(rules[b].0, path)
            && forall|j: int|
            0 <= j < n && #[trigger] covers(rules[j].0, path) ==> rules[j].0.len()
                <= rules[b].0.len(),
        longest_rule(rules, path, n) is None ==> forall|j: int|
            0 <= j < n ==> !#[trigger] covers(rules[j].0, path),
    decreases n,
{
    if n > 0 {
        lemma_longest_prefix_wins(rules, path, n - 1);
    }
}

} // verus!
