//! Which entries of a listing page are reported, and what a HEAD request on an
//! object says about its existence.

use vstd::prelude::*;
use crate::error::TransferError;
use crate::text::{relative_to, strip_prefix_or_self, trim_end, trim_end_char};

verus! {

/// Wildcard matching of the whole of `text` against `pattern`: `*` matches any
/// run of characters (also none), `?` matches exactly one character, every
/// other character matches itself.
pub open spec fn glob_matches(pattern: Seq<char>, text: Seq<char>) -> bool
    decreases pattern.len() + text.len(),
{
    if pattern.len() == 0 {
        text.len() == 0
    } else if pattern[0] == '*' {
        glob_matches(pattern.drop_first(), text) || (text.len() > 0 && glob_matches(
            pattern,
            text.drop_first(),
        ))
    } else {
        text.len() > 0 && (pattern[0] == '?' || pattern[0] == text[0]) && glob_matches(
            pattern.drop_first(),
            text.drop_first(),
        )
    }
}

/// Calls `wildmatch::WildMatch::new(pattern).matches(text)`. Trusted: the
/// crate documents `*` as any number of characters and `?` as exactly one,
/// matched against the whole input, which is `glob_matches`.
#[verifier::external_body]
fn wildcard_matches(pattern: &str, text: &str) -> (r: bool)
    ensures
        r == glob_matches(pattern@, text@),
{
    wildmatch::WildMatch::new(pattern).matches(text)
}

/// Whether a name passes the optional pattern.
pub open spec fn passes(pattern: Option<Seq<char>>, name: Seq<char>) -> bool {
    match pattern {
        None => true,
        Some(p) => glob_matches(p, name),
    }
}

/// Whether an object key of a listing page below `prefix` is reported: a
/// missing key counts as empty, and a key is reported when its part after
/// the prefix is non-empty and passes the pattern.
pub open spec fn object_selected(
    key: Option<Seq<char>>,
    prefix: Seq<char>,
    pattern: Option<Seq<char>>,
) -> bool {
    let k = match key {
        Some(k) => k,
        None => Seq::empty(),
    };
    let rel = relative_to(k, prefix);
    rel.len() > 0 && passes(pattern, rel)
}

/// Whether a sub-folder of a listing page below `prefix` is reported: it must
/// be present, its part after the prefix non-empty, and that part, without
/// its trailing slashes, must pass the pattern.
pub open spec fn folder_selected(
    folder: Option<Seq<char>>,
    prefix: Seq<char>,
    pattern: Option<Seq<char>>,
) -> bool {
    match folder {
        None => false,
        Some(f) => {
            let rel = relative_to(f, prefix);
            rel.len() > 0 && passes(pattern, trim_end_char(rel, '/'))
        },
    }
}

/// The reported object keys, in listing order.
pub open spec fn selected_objects(
    keys: Seq<Option<Seq<char>>>,
    prefix: Seq<char>,
    pattern: Option<Seq<char>>,
) -> Seq<Seq<char>>
    decreases keys.len(),
{
    if keys.len() == 0 {
        Seq::empty()
    } else {
        let rest = selected_objects(keys.drop_last(), prefix, pattern);
        if object_selected(keys.last(), prefix, pattern) {
            rest.push(keys.last().unwrap())
        } else {
            rest
        }
    }
}

/// The reported sub-folder keys, in listing order.
pub open spec fn selected_folders(
    folders: Seq<Option<Seq<char>>>,
    prefix: Seq<char>,
    pattern: Option<Seq<char>>,
) -> Seq<Seq<char>>
    decreases folders.len(),
{
    if folders.len() == 0 {
        Seq::empty()
    } else {
        let rest = selected_folders(folders.drop_last(), prefix, pattern);
        if folder_selected(folders.last(), prefix, pattern) {
            rest.push(folders.last().unwrap())
        } else {
            rest
        }
    }
}

/// The view of an optional string.
pub open spec fn opt_view(s: Option<String>) -> Option<Seq<char>> {
    match s {
        Some(t) => Some(t@),
        None => None,
    }
}

/// The views of a sequence of optional strings.
pub open spec fn opt_views(v: Seq<Option<String>>) -> Seq<Option<Seq<char>>> {
    v.map_values(|s: Option<String>| opt_view(s))
}

/// The views of a sequence of strings.
pub open spec fn views(v: Seq<String>) -> Seq<Seq<char>> {
    v.map_values(|s: String| s@)
}

/// The view of an optional string slice.
pub open spec fn opt_str_view(s: Option<&str>) -> Option<Seq<char>> {
    match s {
        Some(t) => Some(t@),
        None => None,
    }
}

fn passes_exec(pattern: Option<&str>, name: &str) -> (r: bool)
    ensures
        r == passes(opt_str_view(pattern), name@),
{
    match pattern {
        None => true,
        Some(p) => wildcard_matches(p, name),
    }
}

/// Appends to `list` what one listing page below `prefix` reports: first the
/// selected object keys, then the selected sub-folder keys, each in page order.
pub fn append_page_entries(
    list: &mut Vec<String>,
    prefix: &str,
    pattern: Option<&str>,
    object_keys: &Vec<Option<String>>,
    folder_keys: &Vec<Option<String>>,
)
    ensures
        views(final(list)@) == views(old(list)@) + selected_objects(
            opt_views(object_keys@),
            prefix@,
            opt_str_view(pattern),
        ) + selected_folders(opt_views(folder_keys@), prefix@, opt_str_view(pattern)),
{
    let ghost pat = opt_str_view(pattern);
    let ghost start = views(list@);
    let mut i: usize = 0;
    while i < object_keys.len()
        invariant
            i <= object_keys.len(),
            views(list@) == start + selected_objects(
                opt_views(object_keys@).subrange(0, i as int),
                prefix@,
                pat,
            ),
            pat == opt_str_view(pattern),
        decreases object_keys.len() - i,
    {
        let ghost before = views(list@);
        let key: String = match &object_keys[i] {
            Some(k) => k.clone(),
            None => String::new(),
        };
        let rel = strip_prefix_or_self(key.as_str(), prefix);
        let keep = rel.unicode_len() > 0 && passes_exec(pattern, rel.as_str());
        if keep {
            list.push(key);
        }
        proof {
            let s = opt_views(object_keys@);
            assert(s.subrange(0, i + 1).drop_last() =~= s.subrange(0, i as int));
            assert(s.subrange(0, i + 1).last() == s[i as int]);
            if keep {
                assert(views(list@) =~= before.push(key@));
            } else {
                assert(views(list@) =~= before);
            }
        }
        i = i + 1;
    }
    proof {
        assert(opt_views(object_keys@).subrange(0, object_keys.len() as int) =~= opt_views(
            object_keys@,
        ));
    }
    let ghost mid = views(list@);
    let mut j: usize = 0;
    while j < folder_keys.len()
        invariant
            j <= folder_keys.len(),
            views(list@) == mid + selected_folders(
                opt_views(folder_keys@).subrange(0, j as int),
                prefix@,
                pat,
            ),
            pat == opt_str_view(pattern),
        decreases folder_keys.len() - j,
    {
        let ghost before = views(list@);
        let mut keep = false;
        if let Some(folder) = &folder_keys[j] {
            let rel = strip_prefix_or_self(folder.as_str(), prefix);
            if rel.unicode_len() > 0 {
                let name = trim_end(rel.as_str(), '/');
                if passes_exec(pattern, name.as_str()) {
                    list.push(folder.clone());
                    keep = true;
                }
            }
        }
        proof {
            let s = opt_views(folder_keys@);
            assert(s.subrange(0, j + 1).drop_last() =~= s.subrange(0, j as int));
            assert(s.subrange(0, j + 1).last() == s[j as int]);
            if keep {
                assert(views(list@) =~= before.push(s[j as int].unwrap()));
            } else {
                assert(views(list@) =~= before);
            }
        }
        j = j + 1;
    }
    proof {
        assert(opt_views(folder_keys@).subrange(0, folder_keys.len() as int) =~= opt_views(
            folder_keys@,
        ));
    }
}


/// Every character, and every string, matches the pattern `*`.
pub proof fn lemma_star_matches_all(text: Seq<char>)
    ensures
        glob_matches(seq!['*'], text),
    decreases text.len(),
{
    let p = seq!['*'];
    assert(p[0] == '*');
    assert(p.drop_first() =~= Seq::<char>::empty());
    if text.len() > 0 {
        lemma_star_matches_all(text.drop_first());
        assert(glob_matches(p, text.drop_first()));
    } else {
        assert(glob_matches(p.drop_first(), text));
    }
}

/// The pattern `*` selects exactly what no pattern selects.
pub proof fn lemma_star_pattern_selects_all(
    object_keys: Seq<Option<Seq<char>>>,
    folder_keys: Seq<Option<Seq<char>>>,
    prefix: Seq<char>,
)
    ensures
        selected_objects(object_keys, prefix, Some(seq!['*'])) == selected_objects(
            object_keys,
            prefix,
            None,
        ),
        selected_folders(folder_keys, prefix, Some(seq!['*'])) == selected_folders(
            folder_keys,
            prefix,
            None,
        ),
    decreases object_keys.len() + folder_keys.len(),
{
    if object_keys.len() > 0 {
        lemma_star_pattern_selects_all(object_keys.drop_last(), folder_keys, prefix);
        let k = match object_keys.last() {
            Some(k) => k,
            None => Seq::empty(),
        };
        lemma_star_matches_all(relative_to(k, prefix));
    }
    if folder_keys.len() > 0 {
        lemma_star_pattern_selects_all(object_keys, folder_keys.drop_last(), prefix);
        if let Some(f) = folder_keys.last() {
            lemma_star_matches_all(trim_end_char(relative_to(f, prefix), '/'));
        }
    }
}

/// Every reported object key lies strictly below the prefix (its part after
/// the prefix is non-empty) and that part passes the pattern; the report
/// never grows when a pattern is added.
pub proof fn lemma_selected_objects_qualify(
    object_keys: Seq<Option<Seq<char>>>,
    prefix: Seq<char>,
    pattern: Option<Seq<char>>,
)
    ensures
        forall|i: int|
            0 <= i < selected_objects(object_keys, prefix, pattern).len() ==> {
                let k = #[trigger] selected_objects(object_keys, prefix, pattern)[i];
                relative_to(k, prefix).len() > 0 && passes(pattern, relative_to(k, prefix))
            },
        selected_objects(object_keys, prefix, pattern).len() <= selected_objects(
            object_keys,
            prefix,
            None,
        ).len(),
    decreases object_keys.len(),
{
    if object_keys.len() > 0 {
        lemma_selected_objects_qualify(object_keys.drop_last(), prefix, pattern);
    }
}

/// A pattern with no wildcard matches exactly the text equal to it.
pub proof fn lemma_literal_pattern(pattern: Seq<char>, text: Seq<char>)
    requires
        forall|i: int| 0 <= i < pattern.len() ==> #[trigger] pattern[i] != '*' && pattern[i] != '?',
    ensures
        glob_matches(pattern, text) <==> pattern == text,
    decreases pattern.len() + text.len(),
{
    if pattern.len() > 0 && text.len() > 0 {
        assert forall|i: int| 0 <= i < pattern.drop_first().len() implies #[trigger] pattern.drop_first()[i]
            != '*' && pattern.drop_first()[i] != '?' by {
            assert(pattern.drop_first()[i] == pattern[i + 1]);
        }
        assert(pattern[0] != '*' && pattern[0] != '?');
        lemma_literal_pattern(pattern.drop_first(), text.drop_first());
        if pattern[0] == text[0] && pattern.drop_first() == text.drop_first() {
            assert(pattern =~= seq![pattern[0]] + pattern.drop_first());
            assert(text =~= seq![text[0]] + text.drop_first());
        }
        if pattern == text {
            assert(pattern.drop_first() =~= text.drop_first());
        }
    } else if pattern.len() > 0 {
        assert(pattern[0] != '*');
    } else if text.len() == 0 {
        assert(pattern =~= text);
    }
}

/// `?` matches exactly the texts of one character.
pub proof fn lemma_question_mark_pattern(text: Seq<char>)
    ensures
        glob_matches(seq!['?'], text) <==> text.len() == 1,
{
    let p = seq!['?'];
    assert(p[0] == '?');
    assert(p.drop_first() =~= Seq::<char>::empty());
    assert(p[0] != '*');
    if text.len() > 0 {
        assert(glob_matches(p, text) == glob_matches(p.drop_first(), text.drop_first()));
        assert(glob_matches(p.drop_first(), text.drop_first()) == (text.drop_first().len() == 0));
    }
}

/// `*` followed by text with no wildcard matches exactly the texts that end
/// with that text (as `*.csv` matches the names ending in `.csv`).
pub proof fn lemma_star_suffix_pattern(suffix: Seq<char>, text: Seq<char>)
    requires
        forall|i: int| 0 <= i < suffix.len() ==> #[trigger] suffix[i] != '*' && suffix[i] != '?',
    ensures
        glob_matches(seq!['*'] + suffix, text) <==> (suffix.len() <= text.len() && text.subrange(
            text.len() - suffix.len(),
            text.len() as int,
        ) == suffix),
    decreases text.len(),
{
    let p = seq!['*'] + suffix;
    assert(p[0] == '*');
    assert(p.drop_first() =~= suffix);
    lemma_literal_pattern(suffix, text);
    let ends = suffix.len() <= text.len() && text.subrange(
        text.len() - suffix.len(),
        text.len() as int,
    ) == suffix;
    if text.len() > 0 {
        let rest = text.drop_first();
        lemma_star_suffix_pattern(suffix, rest);
        assert(glob_matches(p, text) == (glob_matches(suffix, text) || glob_matches(p, rest)));
        let ends_rest = suffix.len() <= rest.len() && rest.subrange(
            rest.len() - suffix.len(),
            rest.len() as int,
        ) == suffix;
        assert(text.subrange(0, text.len() as int) =~= text);
        if suffix.len() <= rest.len() {
            assert(rest.subrange(rest.len() - suffix.len(), rest.len() as int) =~= text.subrange(
                text.len() - suffix.len(),
                text.len() as int,
            ));
        }
        assert(ends == (suffix == text || ends_rest));
    } else {
        assert(glob_matches(p, text) == glob_matches(suffix, text));
        if suffix.len() == 0 {
            assert(text.subrange(0, 0) =~= suffix);
        }
        if ends {
            assert(suffix.len() == 0);
            assert(suffix =~= text);
        }
    }
}

/// Whether an object key's part after `prefix` matches `pattern`.
pub open spec fn object_matches(pattern: Seq<char>, prefix: Seq<char>) -> spec_fn(Seq<char>) -> bool {
    |k: Seq<char>| glob_matches(pattern, relative_to(k, prefix))
}

/// Whether a sub-folder key's part after `prefix`, without trailing slashes,
/// matches `pattern`.
pub open spec fn folder_matches(pattern: Seq<char>, prefix: Seq<char>) -> spec_fn(Seq<char>) -> bool {
    |f: Seq<char>| glob_matches(pattern, trim_end_char(relative_to(f, prefix), '/'))
}

proof fn lemma_pattern_filters_objects(
    object_keys: Seq<Option<Seq<char>>>,
    prefix: Seq<char>,
    pattern: Seq<char>,
)
    ensures
        selected_objects(object_keys, prefix, Some(pattern)) == selected_objects(
            object_keys,
            prefix,
            None,
        ).filter(object_matches(pattern, prefix)),
    decreases object_keys.len(),
{
    let pred = object_matches(pattern, prefix);
    if object_keys.len() > 0 {
        lemma_pattern_filters_objects(object_keys.drop_last(), prefix, pattern);
        let rest = selected_objects(object_keys.drop_last(), prefix, None);
        let last = object_keys.last();
        if object_selected(last, prefix, None) {
            let k = last.unwrap();
            rest.lemma_filter_push(k, pred);
            assert(object_selected(last, prefix, Some(pattern)) == pred(k));
        }
    } else {
        reveal(Seq::filter);
    }
}

proof fn lemma_pattern_filters_folders(
    folder_keys: Seq<Option<Seq<char>>>,
    prefix: Seq<char>,
    pattern: Seq<char>,
)
    ensures
        selected_folders(folder_keys, prefix, Some(pattern)) == selected_folders(
            folder_keys,
            prefix,
            None,
        ).filter(folder_matches(pattern, prefix)),
    decreases folder_keys.len(),
{
    let pred = folder_matches(pattern, prefix);
    if folder_keys.len() > 0 {
        lemma_pattern_filters_folders(folder_keys.drop_last(), prefix, pattern);
        let rest = selected_folders(folder_keys.drop_last(), prefix, None);
        let last = folder_keys.last();
        if folder_selected(last, prefix, None) {
            let f = last.unwrap();
            rest.lemma_filter_push(f, pred);
            assert(folder_selected(last, prefix, Some(pattern)) == pred(f));
        }
    } else {
        reveal(Seq::filter);
    }
}

/// A pattern only leaves entries out: with a pattern, a listing page reports
/// the object keys it reports without one whose part after the prefix
/// matches the pattern, then the sub-folders it reports without one whose
/// part after the prefix, without trailing slashes, matches it, each in the
/// same order.
pub proof fn lemma_pattern_filters_report(
    object_keys: Seq<Option<Seq<char>>>,
    folder_keys: Seq<Option<Seq<char>>>,
    prefix: Seq<char>,
    pattern: Seq<char>,
)
    ensures
        selected_objects(object_keys, prefix, Some(pattern)) + selected_folders(
            folder_keys,
            prefix,
            Some(pattern),
        ) == selected_objects(object_keys, prefix, None).filter(object_matches(pattern, prefix))
            + selected_folders(folder_keys, prefix, None).filter(folder_matches(pattern, prefix)),
{
    lemma_pattern_filters_objects(object_keys, prefix, pattern);
    lemma_pattern_filters_folders(folder_keys, prefix, pattern);
}

/// A listed key that lies strictly below `prefix`: present, and with a
/// non-empty part after the prefix.
pub open spec fn below_prefix(prefix: Seq<char>) -> spec_fn(Option<Seq<char>>) -> bool {
    |key: Option<Seq<char>>| key matches Some(k) && relative_to(k, prefix).len() > 0
}

/// The key of a present entry.
pub open spec fn present_key(key: Option<Seq<char>>) -> Seq<char> {
    key.unwrap()
}

/// The part of a key after `prefix`: what follows the prefix when the key
/// begins with it, the whole key otherwise.
pub proof fn lemma_relative_part(key: Seq<char>, prefix: Seq<char>)
    ensures
        prefix.len() <= key.len() && key.subrange(0, prefix.len() as int) == prefix
            ==> prefix + relative_to(key, prefix) == key,
        !(prefix.len() <= key.len() && key.subrange(0, prefix.len() as int) == prefix)
            ==> relative_to(key, prefix) == key,
{
    if prefix.len() <= key.len() && key.subrange(0, prefix.len() as int) == prefix {
        assert(prefix + relative_to(key, prefix) =~= key);
    }
}

/// Without a pattern nothing is filtered: a page reports every object key,
/// and every sub-folder, whose part after the prefix is non-empty, in page
/// order, and nothing else.
pub proof fn lemma_plain_listing(
    object_keys: Seq<Option<Seq<char>>>,
    folder_keys: Seq<Option<Seq<char>>>,
    prefix: Seq<char>,
)
    ensures
        selected_objects(object_keys, prefix, None) == object_keys.filter(
            below_prefix(prefix),
        ).map_values(|k: Option<Seq<char>>| present_key(k)),
        selected_folders(folder_keys, prefix, None) == folder_keys.filter(
            below_prefix(prefix),
        ).map_values(|k: Option<Seq<char>>| present_key(k)),
{
    lemma_plain_objects(object_keys, prefix);
    lemma_plain_folders(folder_keys, prefix);
}

proof fn lemma_plain_objects(keys: Seq<Option<Seq<char>>>, prefix: Seq<char>)
    ensures
        selected_objects(keys, prefix, None) == keys.filter(below_prefix(prefix)).map_values(
            |k: Option<Seq<char>>| present_key(k),
        ),
    decreases keys.len(),
{
    let pred = below_prefix(prefix);
    if keys.len() == 0 {
        reveal(Seq::filter);
        assert(keys.filter(pred).map_values(|k: Option<Seq<char>>| present_key(k)) =~= Seq::<
            Seq<char>,
        >::empty());
    } else {
        let init = keys.drop_last();
        lemma_plain_objects(init, prefix);
        assert(keys =~= init.push(keys.last()));
        init.lemma_filter_push(keys.last(), pred);
        let f = init.filter(pred);
        if pred(keys.last()) {
            assert(f.push(keys.last()).map_values(|k: Option<Seq<char>>| present_key(k))
                =~= f.map_values(|k: Option<Seq<char>>| present_key(k)).push(
                keys.last().unwrap(),
            ));
        } else {
            if keys.last() is None {
                assert(relative_to(Seq::<char>::empty(), prefix) =~= Seq::<char>::empty());
            }
        }
    }
}

proof fn lemma_plain_folders(keys: Seq<Option<Seq<char>>>, prefix: Seq<char>)
    ensures
        selected_folders(keys, prefix, None) == keys.filter(below_prefix(prefix)).map_values(
            |k: Option<Seq<char>>| present_key(k),
        ),
    decreases keys.len(),
{
    let pred = below_prefix(prefix);
    if keys.len() == 0 {
        reveal(Seq::filter);
        assert(keys.filter(pred).map_values(|k: Option<Seq<char>>| present_key(k)) =~= Seq::<
            Seq<char>,
        >::empty());
    } else {
        let init = keys.drop_last();
        lemma_plain_folders(init, prefix);
        assert(keys =~= init.push(keys.last()));
        init.lemma_filter_push(keys.last(), pred);
        let f = init.filter(pred);
        if pred(keys.last()) {
            assert(f.push(keys.last()).map_values(|k: Option<Seq<char>>| present_key(k))
                =~= f.map_values(|k: Option<Seq<char>>| present_key(k)).push(
                keys.last().unwrap(),
            ));
        }
    }
}

/// The entries of `s` whose flag in `keep` is set, in order (`keep` has a
/// flag for each entry).
pub open spec fn pick<A>(s: Seq<A>, keep: Seq<bool>) -> Seq<A>
    decreases s.len(),
{
    if s.len() == 0 {
        Seq::empty()
    } else {
        let rest = pick(s.drop_last(), keep.drop_last());
        if keep.last() {
            rest.push(s.last())
        } else {
            rest
        }
    }
}

/// Whether `a` is `b` with some entries left out, the rest in the same order.
pub open spec fn is_subsequence<A>(a: Seq<A>, b: Seq<A>) -> bool {
    exists|keep: Seq<bool>| keep.len() == b.len() && #[trigger] pick(b, keep) == a
}

/// What a listing of several pages reports, page after page: the list that
/// `append_page_entries` builds when it is called on each page in turn,
/// starting from an empty list. A page is its object keys and its sub-folder
/// keys.
pub open spec fn listing_report(
    pages: Seq<(Seq<Option<Seq<char>>>, Seq<Option<Seq<char>>>)>,
    prefix: Seq<char>,
    pattern: Option<Seq<char>>,
) -> Seq<Seq<char>>
    decreases pages.len(),
{
    if pages.len() == 0 {
        Seq::empty()
    } else {
        listing_report(pages.drop_last(), prefix, pattern) + selected_objects(
            pages.last().0,
            prefix,
            pattern,
        ) + selected_folders(pages.last().1, prefix, pattern)
    }
}

/// The flags that mark, in the report without a pattern, the entries that
/// the pattern keeps.
spec fn listing_keep(
    pages: Seq<(Seq<Option<Seq<char>>>, Seq<Option<Seq<char>>>)>,
    prefix: Seq<char>,
    pattern: Seq<char>,
) -> Seq<bool>
    decreases pages.len(),
{
    if pages.len() == 0 {
        Seq::empty()
    } else {
        listing_keep(pages.drop_last(), prefix, pattern) + selected_objects(
            pages.last().0,
            prefix,
            None,
        ).map_values(object_matches(pattern, prefix)) + selected_folders(
            pages.last().1,
            prefix,
            None,
        ).map_values(folder_matches(pattern, prefix))
    }
}

proof fn lemma_pick_filter<A>(s: Seq<A>, pred: spec_fn(A) -> bool)
    ensures
        pick(s, s.map_values(pred)) == s.filter(pred),
    decreases s.len(),
{
    if s.len() == 0 {
        reveal(Seq::filter);
    } else {
        let init = s.drop_last();
        lemma_pick_filter(init, pred);
        assert(s.map_values(pred).drop_last() =~= init.map_values(pred));
        assert(s =~= init.push(s.last()));
        init.lemma_filter_push(s.last(), pred);
    }
}

proof fn lemma_pick_concat<A>(s1: Seq<A>, k1: Seq<bool>, s2: Seq<A>, k2: Seq<bool>)
    requires
        k1.len() == s1.len(),
        k2.len() == s2.len(),
    ensures
        pick(s1 + s2, k1 + k2) == pick(s1, k1) + pick(s2, k2),
    decreases s2.len(),
{
    if s2.len() == 0 {
        assert(s1 + s2 =~= s1);
        assert(k1 + k2 =~= k1);
        assert(pick(s2, k2) =~= Seq::<A>::empty());
        assert(pick(s1, k1) + pick(s2, k2) =~= pick(s1, k1));
    } else {
        lemma_pick_concat(s1, k1, s2.drop_last(), k2.drop_last());
        assert((s1 + s2).drop_last() =~= s1 + s2.drop_last());
        assert((k1 + k2).drop_last() =~= k1 + k2.drop_last());
        let p1 = pick(s1, k1);
        let p2 = pick(s2.drop_last(), k2.drop_last());
        assert((p1 + p2).push(s2.last()) =~= p1 + p2.push(s2.last()));
    }
}

/// A pattern only leaves entries out of a listing: over any number of pages,
/// what is reported with a pattern is what is reported without one, with
/// some entries left out and the others in the same order.
pub proof fn lemma_pattern_keeps_subsequence(
    pages: Seq<(Seq<Option<Seq<char>>>, Seq<Option<Seq<char>>>)>,
    prefix: Seq<char>,
    pattern: Seq<char>,
)
    ensures
        is_subsequence(
            listing_report(pages, prefix, Some(pattern)),
            listing_report(pages, prefix, None),
        ),
{
    lemma_report_picks(pages, prefix, pattern);
    let keep = listing_keep(pages, prefix, pattern);
    assert(pick(listing_report(pages, prefix, None), keep) == listing_report(
        pages,
        prefix,
        Some(pattern),
    ));
}

proof fn lemma_report_picks(
    pages: Seq<(Seq<Option<Seq<char>>>, Seq<Option<Seq<char>>>)>,
    prefix: Seq<char>,
    pattern: Seq<char>,
)
    ensures
        listing_keep(pages, prefix, pattern).len() == listing_report(pages, prefix, None).len(),
        pick(listing_report(pages, prefix, None), listing_keep(pages, prefix, pattern))
            == listing_report(pages, prefix, Some(pattern)),
    decreases pages.len(),
{
    if pages.len() > 0 {
        let init = pages.drop_last();
        lemma_report_picks(init, prefix, pattern);
        let objs = selected_objects(pages.last().0, prefix, None);
        let dirs = selected_folders(pages.last().1, prefix, None);
        let po = object_matches(pattern, prefix);
        let pf = folder_matches(pattern, prefix);
        let r0 = listing_report(init, prefix, None);
        let k0 = listing_keep(init, prefix, pattern);
        lemma_pattern_filters_objects(pages.last().0, prefix, pattern);
        lemma_pattern_filters_folders(pages.last().1, prefix, pattern);
        lemma_pick_filter(objs, po);
        lemma_pick_filter(dirs, pf);
        lemma_pick_concat(r0, k0, objs, objs.map_values(po));
        lemma_pick_concat(r0 + objs, k0 + objs.map_values(po), dirs, dirs.map_values(pf));
    }
}

/// What a HEAD request on an object returned.
#[derive(Debug, Clone, PartialEq, Eq)]
pub enum HeadOutcome {
    /// The object exists.
    Found,
    /// The service answered with an error status.
    ServiceError { status: u16, detail: String },
    /// The request failed before the service answered.
    OtherError { detail: String },
}

/// Whether an object exists, from what a HEAD request on it returned: a
/// success means yes, a service error with status 404 means no, and any other
/// failure is an error carrying its detail.
pub fn existence_from_head(outcome: HeadOutcome) -> (r: Result<bool, TransferError>)
    ensures
        outcome is Found ==> r == Ok::<bool, TransferError>(true),
        outcome matches HeadOutcome::ServiceError { status, detail } ==> (if status == 404 {
            r == Ok::<bool, TransferError>(false)
        } else {
            r == Err::<bool, TransferError>(TransferError::HeadObjectFailed { detail })
        }),
        outcome matches HeadOutcome::OtherError { detail } ==> r == Err::<bool, TransferError>(
            TransferError::HeadObjectFailed { detail },
        ),
{
    match outcome {
        HeadOutcome::Found => Ok(true),
        HeadOutcome::ServiceError { status, detail } => {
            if status == 404 {
                Ok(false)
            } else {
                Err(TransferError::HeadObjectFailed { detail })
            }
        },
        HeadOutcome::OtherError { detail } => Err(TransferError::HeadObjectFailed { detail }),
    }
}

} // verus!
