//! Where each browser keeps its bookmarks, below the user's home directory.

use vstd::prelude::*;

use crate::error::ExportError;
use crate::places::PLACES_FILE;

verus! {

/// The pattern, relative to the home directory, that the first browser's
/// profile directories match.
pub const FIREFOX_PROFILES: &'static str = "Library/Application Support/Firefox/Profiles/*.default-release";

/// The bookmark document of the second browser, relative to the home directory.
pub const CHROME_BOOKMARKS: &'static str = "Library/Application Support/Google/Chrome/Default/Bookmarks";

/// `rest` placed below `base`: one `/` between them unless `base` is empty
/// or already ends with one.
pub open spec fn join_path(base: Seq<char>, rest: Seq<char>) -> Seq<char> {
    if base.len() == 0 {
        rest
    } else if base.last() == '/' {
        base + rest
    } else {
        base + seq!['/'] + rest
    }
}

/// Whether `a` comes no later than `b` in character order, comparing from
/// index `i` on.
pub open spec fn text_le_from(a: Seq<char>, b: Seq<char>, i: int) -> bool
    decreases a.len() - i,
{
    if i < 0 || i >= a.len() {
        true
    } else if i >= b.len() {
        false
    } else if a[i] != b[i] {
        a[i] < b[i]
    } else {
        text_le_from(a, b, i + 1)
    }
}

/// Whether `a` comes no later than `b` in lexicographic character order.
pub open spec fn text_le(a: Seq<char>, b: Seq<char>) -> bool {
    text_le_from(a, b, 0)
}

/// The order is transitive.
pub proof fn lemma_text_le_transitive(a: Seq<char>, b: Seq<char>, c: Seq<char>, i: int)
    requires
        0 <= i,
        text_le_from(a, b, i),
        text_le_from(b, c, i),
    ensures
        text_le_from(a, c, i),
    decreases a.len() - i,
{
    if i < a.len() && a[i] == b[i] && b[i] == c[i] {
        lemma_text_le_transitive(a, b, c, i + 1);
    }
}

/// Every text comes no later than itself.
pub proof fn lemma_text_le_reflexive(a: Seq<char>, i: int)
    requires
        0 <= i,
    ensures
        text_le_from(a, a, i),
    decreases a.len() - i,
{
    if i < a.len() {
        lemma_text_le_reflexive(a, i + 1);
    }
}

/// Any two texts are ordered one way or the other.
pub proof fn lemma_text_le_total(a: Seq<char>, b: Seq<char>, i: int)
    requires
        0 <= i,
    ensures
        text_le_from(a, b, i) || text_le_from(b, a, i),
    decreases a.len() - i,
{
    if i < a.len() && i < b.len() && a[i] == b[i] {
        lemma_text_le_total(a, b, i + 1);
    }
}

/// Places `rest` below `base`.
pub fn join_path_text(base: &str, rest: &str) -> (r: String)
    ensures
        r@ == join_path(base@, rest@),
{
    let n: usize = base.unicode_len();
    let mut r = String::from_str(base);
    if n > 0 && base.get_char(n - 1) != '/' {
        proof {
            reveal_strlit("/");
        }
        r.append("/");
    }
    r.append(rest);
    r
}

/// The pattern that the first browser's profile directories match.
pub fn firefox_profile_pattern(home: &str) -> (r: String)
    ensures
        r@ == join_path(home@, FIREFOX_PROFILES@),
{
    join_path_text(home, FIREFOX_PROFILES)
}

/// The bookmark database inside a profile directory.
pub fn places_database_path(profile_dir: &str) -> (r: String)
    ensures
        r@ == join_path(profile_dir@, PLACES_FILE@),
{
    join_path_text(profile_dir, PLACES_FILE)
}

/// The second browser's bookmark document.
pub fn chrome_bookmarks_path(home: &str) -> (r: String)
    ensures
        r@ == join_path(home@, CHROME_BOOKMARKS@),
{
    join_path_text(home, CHROME_BOOKMARKS)
}

/// Whether `a` comes no later than `b` in lexicographic character order.
pub fn text_le_exec(a: &str, b: &str) -> (r: bool)
    ensures
        r == text_le(a@, b@),
{
    let n: usize = a.unicode_len();
    let m: usize = b.unicode_len();
    let mut i: usize = 0;
    while i < n
        invariant
            i <= n,
            n == a@.len(),
            m == b@.len(),
            text_le_from(a@, b@, i as int) == text_le(a@, b@),
        decreases n - i,
    {
        if i >= m {
            return false;
        }
        let x = a.get_char(i);
        let y = b.get_char(i);
        if x != y {
            return x < y;
        }
        i += 1;
    }
    true
}

/// The profile directory to read: the first of the matching directories in
/// lexicographic order. No match is an error.
pub fn choose_profile_dir(candidates: &Vec<String>) -> (r: Result<String, ExportError>)
    ensures
        candidates@.len() == 0 <==> r matches Err(ExportError::ProfileNotFound),
        r matches Ok(dir) ==> (exists|i: int| 0 <= i < candidates@.len() && candidates@[i]@ == dir@)
            && forall|i: int| 0 <= i < candidates@.len() ==> text_le(dir@, #[trigger] candidates@[i]@),
        r is Ok || r matches Err(ExportError::ProfileNotFound),
{
    if candidates.len() == 0 {
        return Err(ExportError::ProfileNotFound);
    }
    let mut best: usize = 0;
    let mut k: usize = 1;
    proof {
        lemma_text_le_reflexive(candidates@[0]@, 0);
    }
    while k < candidates.len()
        invariant
            1 <= k <= candidates.len(),
            best < k,
            forall|i: int| 0 <= i < k ==> text_le(candidates@[best as int]@, #[trigger] candidates@[i]@),
        decreases candidates.len() - k,
    {
        if !text_le_exec(candidates[best].as_str(), candidates[k].as_str()) {
            proof {
                let b = candidates@[best as int]@;
                let c = candidates@[k as int]@;
                lemma_text_le_total(b, c, 0);
                assert forall|i: int| 0 <= i < k + 1 implies text_le(c, #[trigger] candidates@[i]@) by {
                    if i < k {
                        lemma_text_le_transitive(c, b, candidates@[i]@, 0);
                    } else {
                        lemma_text_le_reflexive(c, 0);
                    }
                }
            }
            best = k;
        }
        k += 1;
    }
    Ok(candidates[best].clone())
}

} // verus!
