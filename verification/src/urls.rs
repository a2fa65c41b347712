//! The append-only crawl record: URL interning with dense ids, scrape and
//! failure bookkeeping, redirect collapsing, and the TOML snapshot.
use crate::text::{string_eq, usize_to_string, append_escaped, escaped, dec_digits};
use vstd::prelude::*;

verus! {

/// `s` holds a pair whose key is `k`.
pub open spec fn assoc_has(s: Seq<(usize, usize)>, k: usize) -> bool {
    exists|i: int| 0 <= i < s.len() && (#[trigger] s[i]).0 == k
}

/// The value paired with key `k` in `s` (meaningful when keys are distinct).
pub open spec fn assoc_val(s: Seq<(usize, usize)>, k: usize) -> usize {
    let i = choose|i: int| 0 <= i < s.len() && (#[trigger] s[i]).0 == k;
    s[i].1
}

/// Every URL the engine has ever observed, under a dense id assigned at first
/// sight, together with which ids were scraped, which failed, and which
/// redirected where.
#[derive(Debug)]
pub struct Record {
    /// The id of a URL is its index here; this single table carries both the
    /// `url -> id` and the `id -> url` direction.
    pub urls: Vec<String>,
    /// Ids scraped at least once, in first-scrape order, no repeats.
    pub scrapes: Vec<usize>,
    /// Ids failed at least once, in first-failure order, no repeats.
    pub fails: Vec<usize>,
    /// Redirects as `(source id, final id)` pairs with distinct sources.
    pub redirects: Vec<(usize, usize)>,
}

impl Record {
    /// URLs are interned at most once, the id sets hold no repeats, and
    /// redirect sources are distinct.
    pub open spec fn wf(&self) -> bool {
        &&& forall|i: int, j: int|
            0 <= i < j < self.urls@.len() ==> self.urls.deep_view()[i] != self.urls.deep_view()[j]
        &&& forall|i: int, j: int|
            0 <= i < j < self.scrapes@.len() ==> self.scrapes@[i] != self.scrapes@[j]
        &&& forall|i: int, j: int|
            0 <= i < j < self.fails@.len() ==> self.fails@[i] != self.fails@[j]
        &&& forall|i: int, j: int|
            0 <= i < j < self.redirects@.len() ==> (#[trigger] self.redirects@[i]).0 != (
            #[trigger] self.redirects@[j]).0
    }

    /// The URLs as character sequences, id order.
    pub open spec fn urls_seq(&self) -> Seq<Seq<char>> {
        self.urls.deep_view()
    }

    /// The URL is already interned.
    pub open spec fn known(&self, u: Seq<char>) -> bool {
        self.urls_seq().contains(u)
    }

    /// The id assigned to an interned URL.
    pub open spec fn id_of(&self, u: Seq<char>) -> int {
        self.urls_seq().index_of(u)
    }

    /// The `id -> url` direction as a map.
    pub open spec fn url_ids_map(&self) -> Map<int, Seq<char>> {
        Map::new(|i: int| 0 <= i < self.urls@.len(), |i: int| self.urls_seq()[i])
    }

    /// The `url -> id` direction as a map.
    pub open spec fn urls_map(&self) -> Map<Seq<char>, int> {
        Map::new(|u: Seq<char>| self.known(u), |u: Seq<char>| self.id_of(u))
    }

    pub open spec fn scrapes_set(&self) -> Set<usize> {
        self.scrapes@.to_set()
    }

    pub open spec fn fails_set(&self) -> Set<usize> {
        self.fails@.to_set()
    }

    /// The redirects as a map from source id to final id.
    pub open spec fn redirects_map(&self) -> Map<usize, usize> {
        Map::new(|k: usize| assoc_has(self.redirects@, k), |k: usize| assoc_val(self.redirects@, k))
    }

    pub fn new() -> (r: Record)
        ensures
            r.wf(),
            r.urls@.len() == 0,
            r.scrapes@.len() == 0,
            r.fails@.len() == 0,
            r.redirects@.len() == 0,
    {
        Record { urls: Vec::new(), scrapes: Vec::new(), fails: Vec::new(), redirects: Vec::new() }
    }

    /// If the URL is already recorded, returns `Err` with its existing id and
    /// changes nothing; otherwise assigns the next dense id, records the URL
    /// and returns `Ok` with the new id.
    pub fn check_add_url(&mut self, url: String) -> (r: Result<usize, usize>)
        requires
            old(self).wf(),
        ensures
            final(self).wf(),
            final(self).scrapes@ == old(self).scrapes@,
            final(self).fails@ == old(self).fails@,
            final(self).redirects@ == old(self).redirects@,
            match r {
                Err(i) => {
                    &&& final(self).urls@ == old(self).urls@
                    &&& old(self).known(url@)
                    &&& i as int == old(self).id_of(url@)
                },
                Ok(i) => {
                    &&& !old(self).known(url@)
                    &&& i as int == old(self).urls@.len()
                    &&& final(self).urls_seq() == old(self).urls_seq().push(url@)
                    &&& final(self).urls@.len() == old(self).urls@.len() + 1
                },
            },
    {
        let n: usize = self.urls.len();
        let mut i: usize = 0;
        while i < n
            invariant
                old(self).wf(),
                n == self.urls@.len(),
                i <= n,
                *self == *old(self),
                forall|k: int| 0 <= k < i ==> self.urls.deep_view()[k] != url@,
            decreases n - i,
        {
            if string_eq(&self.urls[i], &url) {
                proof {
                    assert(self.urls_seq()[i as int] == url@);
                    assert(self.urls_seq().contains(url@));
                    let w = self.urls_seq().index_of(url@);
                    assert(0 <= w < self.urls_seq().len() && self.urls_seq()[w] == url@);
                    if w < i as int {
                        assert(self.urls.deep_view()[w] != self.urls.deep_view()[i as int]);
                        assert(false);
                    }
                    if w > i as int {
                        assert(self.urls.deep_view()[i as int] != self.urls.deep_view()[w]);
                        assert(false);
                    }
                }
                return Err(i);
            }
            i += 1;
        }
        proof {
            if self.urls_seq().contains(url@) {
                let w = choose|w: int|
                    0 <= w < self.urls_seq().len() && self.urls_seq()[w] == url@;
                assert(false);
            }
        }
        let id = self.urls.len();
        self.urls.push(url);
        proof {
            assert(self.urls_seq() =~= old(self).urls_seq().push(url@));
        }
        Ok(id)
    }

    /// The id is recorded as scraped.
    pub fn is_scraped(&self, id: usize) -> (r: bool)
        ensures
            r == self.scrapes_set().contains(id),
    {
        contains_usize(&self.scrapes, id)
    }

    /// Marks the id as scraped; a repeat is a no-op.
    pub fn insert_scrape(&mut self, id: usize)
        requires
            old(self).wf(),
        ensures
            final(self).wf(),
            final(self).urls@ == old(self).urls@,
            final(self).fails@ == old(self).fails@,
            final(self).redirects@ == old(self).redirects@,
            final(self).scrapes@ == if old(self).scrapes_set().contains(id) {
                old(self).scrapes@
            } else {
                old(self).scrapes@.push(id)
            },
            final(self).scrapes_set() == old(self).scrapes_set().insert(id),
    {
        if !contains_usize(&self.scrapes, id) {
            self.scrapes.push(id);
            proof {
                lemma_to_set_push(old(self).scrapes@, id);
            }
        } else {
            proof {
                assert(self.scrapes_set() =~= old(self).scrapes_set().insert(id));
            }
        }
    }

    /// Marks the id as failed unless it already is; returns whether it was
    /// newly inserted (the caller reschedules exactly then).
    pub fn insert_fail(&mut self, id: usize) -> (added: bool)
        requires
            old(self).wf(),
        ensures
            final(self).wf(),
            final(self).urls@ == old(self).urls@,
            final(self).scrapes@ == old(self).scrapes@,
            final(self).redirects@ == old(self).redirects@,
            added == !old(self).fails_set().contains(id),
            final(self).fails@ == if old(self).fails_set().contains(id) {
                old(self).fails@
            } else {
                old(self).fails@.push(id)
            },
            final(self).fails_set() == old(self).fails_set().insert(id),
    {
        let added = !contains_usize(&self.fails, id);
        if added {
            self.fails.push(id);
            proof {
                lemma_to_set_push(old(self).fails@, id);
            }
        } else {
            proof {
                assert(self.fails_set() =~= old(self).fails_set().insert(id));
            }
        }
        added
    }

    /// Records `redirects[source] = to`, overwriting any earlier target for
    /// the same source.
    pub fn insert_redirect(&mut self, source: usize, to: usize)
        requires
            old(self).wf(),
        ensures
            final(self).wf(),
            final(self).urls@ == old(self).urls@,
            final(self).scrapes@ == old(self).scrapes@,
            final(self).fails@ == old(self).fails@,
            final(self).redirects_map() == old(self).redirects_map().insert(source, to),
            final(self).redirects@.len() == if old(self).redirects_map().dom().contains(source) {
                old(self).redirects@.len()
            } else {
                old(self).redirects@.len() + 1
            },
            forall|k: int|
                0 <= k < final(self).redirects@.len() ==> old(self).redirects@.contains(
                    #[trigger] final(self).redirects@[k],
                ) || final(self).redirects@[k] == (source, to),
    {
        let n: usize = self.redirects.len();
        let mut i: usize = 0;
        while i < n
            invariant
                old(self).wf(),
                n == self.redirects@.len(),
                i <= n,
                *self == *old(self),
                forall|k: int| 0 <= k < i ==> (#[trigger] self.redirects@[k]).0 != source,
            decreases n - i,
        {
            let pair = self.redirects[i];
            if pair.0 == source {
                self.redirects.set(i, (source, to));
                proof {
                    lemma_assoc_update(old(self).redirects@, self.redirects@, i as int, source, to);
                    assert(self.redirects_map() =~= old(self).redirects_map().insert(source, to));
                    assert forall|k: int| 0 <= k < self.redirects@.len() implies old(
                        self,
                    ).redirects@.contains(#[trigger] self.redirects@[k]) || self.redirects@[k] == (
                    source, to) by {
                        if k != i {
                            assert(self.redirects@[k] == old(self).redirects@[k]);
                            assert(old(self).redirects@.contains(old(self).redirects@[k]));
                        }
                    }
                }
                return ;
            }
            i += 1;
        }
        proof {
            if assoc_has(self.redirects@, source) {
                let w = choose|w: int|
                    0 <= w < self.redirects@.len() && (#[trigger] self.redirects@[w]).0 == source;
                assert(false);
            }
        }
        self.redirects.push((source, to));
        proof {
            lemma_assoc_push(old(self).redirects@, source, to);
            assert(self.redirects_map() =~= old(self).redirects_map().insert(source, to));
            assert forall|k: int| 0 <= k < self.redirects@.len() implies old(
                self,
            ).redirects@.contains(#[trigger] self.redirects@[k]) || self.redirects@[k] == (
            source, to) by {
                if k < old(self).redirects@.len() {
                    assert(self.redirects@[k] == old(self).redirects@[k]);
                    assert(old(self).redirects@.contains(old(self).redirects@[k]));
                }
            }
        }
    }

    /// Interns the response's final URL and collapses redirects. Returns
    /// `None`, changing nothing, when the final URL was already known under a
    /// different id that is already scraped (the resource has been handled).
    /// Otherwise records the redirect when the final id differs from
    /// `url_id`, marks the final id scraped, and returns it. This is the only
    /// operation through which `scrapes` gains members.
    pub fn check_final_url(&mut self, url_id: usize, final_url: String) -> (r: Option<usize>)
        requires
            old(self).wf(),
        ensures
            final(self).wf(),
            final(self).fails@ == old(self).fails@,
            match r {
                None => {
                    &&& final(self).urls@ == old(self).urls@
                    &&& final(self).scrapes@ == old(self).scrapes@
                    &&& final(self).redirects@ == old(self).redirects@
                    &&& old(self).known(final_url@)
                    &&& old(self).id_of(final_url@) != url_id as int
                    &&& old(self).scrapes_set().contains(old(self).id_of(final_url@) as usize)
                },
                Some(fid) => {
                    &&& fid as int == if old(self).known(final_url@) {
                        old(self).id_of(final_url@)
                    } else {
                        old(self).urls@.len() as int
                    }
                    &&& final(self).urls_seq() == if old(self).known(final_url@) {
                        old(self).urls_seq()
                    } else {
                        old(self).urls_seq().push(final_url@)
                    }
                    &&& final(self).scrapes_set() == old(self).scrapes_set().insert(fid)
                    &&& (url_id != fid ==> final(self).redirects_map() == old(
                        self,
                    ).redirects_map().insert(url_id, fid))
                    &&& (url_id == fid ==> final(self).redirects@ == old(self).redirects@)
                    &&& forall|k: int|
                        0 <= k < final(self).redirects@.len() ==> old(self).redirects@.contains(
                            #[trigger] final(self).redirects@[k],
                        ) || final(self).redirects@[k] == (url_id, fid)
                    &&& (url_id != fid || old(self).known(final_url@) || url_id as int == old(
                        self,
                    ).urls@.len())
                },
            },
    {
        let final_url_id: usize;
        match self.check_add_url(final_url) {
            Ok(id) => {
                final_url_id = id;
            },
            Err(id) => {
                if url_id != id && self.is_scraped(id) {
                    return None;
                }
                final_url_id = id;
            },
        }
        if url_id != final_url_id {
            self.insert_redirect(url_id, final_url_id);
        }
        self.insert_scrape(final_url_id);
        Some(final_url_id)
    }

    /// Renders the record as its TOML snapshot: the `scrapes` and `fails` id
    /// arrays, then the `[urls]` table mapping each URL string to its id,
    /// then the `[redirects]` table mapping each source id (stringified) to
    /// its final id. The inverse `id -> url` direction is derivable and is
    /// not emitted.
    pub fn serialize(&self) -> (r: String)
        ensures
            r@ == spec_serialize(*self),
    {
        let mut out = String::new();
        out.append("scrapes = ");
        append_int_list(&mut out, &self.scrapes);
        out.append("\nfails = ");
        append_int_list(&mut out, &self.fails);
        out.append("\n\n[urls]\n");
        let ghost head: Seq<char> = out@;
        let n: usize = self.urls.len();
        let mut i: usize = 0;
        while i < n
            invariant
                i <= n,
                n == self.urls@.len(),
                out@ == head + spec_url_lines(self.urls.deep_view().subrange(0, i as int)),
            decreases n - i,
        {
            out.append("\"");
            append_escaped(&mut out, self.urls[i].as_str());
            out.append("\" = ");
            let digits = usize_to_string(i);
            out.append(digits.as_str());
            out.append("\n");
            proof {
                let pre = self.urls.deep_view().subrange(0, i as int);
                let cur = self.urls.deep_view().subrange(0, i + 1);
                assert(cur.drop_last() =~= pre);
                assert(cur.last() == self.urls.deep_view()[i as int]);
                assert(out@ =~= head + spec_url_lines(cur));
            }
            i += 1;
        }
        proof {
            assert(self.urls.deep_view().subrange(0, n as int) =~= self.urls.deep_view());
        }
        out.append("\n[redirects]\n");
        let ghost head2: Seq<char> = out@;
        let m: usize = self.redirects.len();
        let mut j: usize = 0;
        while j < m
            invariant
                j <= m,
                m == self.redirects@.len(),
                out@ == head2 + spec_redirect_lines(self.redirects@.subrange(0, j as int)),
            decreases m - j,
        {
            let pair = self.redirects[j];
            out.append("\"");
            let source_digits = usize_to_string(pair.0);
            out.append(source_digits.as_str());
            out.append("\" = ");
            let to_digits = usize_to_string(pair.1);
            out.append(to_digits.as_str());
            out.append("\n");
            proof {
                let pre = self.redirects@.subrange(0, j as int);
                let cur = self.redirects@.subrange(0, j + 1);
                assert(cur.drop_last() =~= pre);
                assert(cur.last() == self.redirects@[j as int]);
                assert(out@ =~= head2 + spec_redirect_lines(cur));
            }
            j += 1;
        }
        proof {
            assert(self.redirects@.subrange(0, m as int) =~= self.redirects@);
            assert(out@ =~= spec_serialize(*self));
        }
        out
    }

    /// The four cardinalities, used for snapshot change detection.
    pub fn lens(&self) -> (r: (usize, usize, usize, usize))
        ensures
            r.0 == self.urls@.len(),
            r.1 == self.scrapes@.len(),
            r.2 == self.fails@.len(),
            r.3 == self.redirects@.len(),
    {
        (self.urls.len(), self.scrapes.len(), self.fails.len(), self.redirects.len())
    }
}

impl Default for Record {
    fn default() -> (r: Record)
        ensures
            r.wf(),
            r.urls@.len() == 0,
            r.scrapes@.len() == 0,
            r.fails@.len() == 0,
            r.redirects@.len() == 0,
    {
        Record::new()
    }
}

/// The body of a TOML integer array: the ids comma-separated.
pub open spec fn spec_int_list_body(ids: Seq<usize>) -> Seq<char>
    decreases ids.len(),
{
    if ids.len() == 0 {
        Seq::empty()
    } else if ids.len() == 1 {
        dec_digits(ids[0] as nat)
    } else {
        spec_int_list_body(ids.drop_last()) + ", "@ + dec_digits(ids.last() as nat)
    }
}

/// A TOML integer array holding `ids` in order.
pub open spec fn spec_int_list(ids: Seq<usize>) -> Seq<char> {
    "["@ + spec_int_list_body(ids) + "]"@
}

/// One `[urls]` line: the quoted, escaped URL, then its id.
pub open spec fn spec_url_line(u: Seq<char>, id: int) -> Seq<char> {
    "\""@ + escaped(u) + "\" = "@ + dec_digits(id as nat) + "\n"@
}

/// The `[urls]` table body, one line per interned URL in id order.
pub open spec fn spec_url_lines(urls: Seq<Seq<char>>) -> Seq<char>
    decreases urls.len(),
{
    if urls.len() == 0 {
        Seq::empty()
    } else {
        spec_url_lines(urls.drop_last()) + spec_url_line(urls.last(), urls.len() - 1)
    }
}

/// One `[redirects]` line: the quoted source id, then the final id.
pub open spec fn spec_redirect_line(p: (usize, usize)) -> Seq<char> {
    "\""@ + dec_digits(p.0 as nat) + "\" = "@ + dec_digits(p.1 as nat) + "\n"@
}

/// The `[redirects]` table body, one line per redirect in insertion order.
pub open spec fn spec_redirect_lines(rs: Seq<(usize, usize)>) -> Seq<char>
    decreases rs.len(),
{
    if rs.len() == 0 {
        Seq::empty()
    } else {
        spec_redirect_lines(rs.drop_last()) + spec_redirect_line(rs.last())
    }
}

/// The full TOML snapshot of a record.
pub open spec fn spec_serialize(rec: Record) -> Seq<char> {
    "scrapes = "@ + spec_int_list(rec.scrapes@) + "\nfails = "@ + spec_int_list(rec.fails@)
        + "\n\n[urls]\n"@ + spec_url_lines(rec.urls.deep_view()) + "\n[redirects]\n"@
        + spec_redirect_lines(rec.redirects@)
}

fn append_int_list(out: &mut String, ids: &Vec<usize>)
    ensures
        final(out)@ == old(out)@ + spec_int_list(ids@),
{
    out.append("[");
    let n: usize = ids.len();
    let mut i: usize = 0;
    while i < n
        invariant
            i <= n,
            n == ids@.len(),
            out@ == old(out)@ + "["@ + spec_int_list_body(ids@.subrange(0, i as int)),
        decreases n - i,
    {
        if i > 0 {
            out.append(", ");
        }
        let digits = usize_to_string(ids[i]);
        out.append(digits.as_str());
        proof {
            let pre = ids@.subrange(0, i as int);
            let cur = ids@.subrange(0, i + 1);
            assert(cur.drop_last() =~= pre);
            assert(cur.last() == ids@[i as int]);
            if i == 0 {
                assert(out@ =~= old(out)@ + "["@ + spec_int_list_body(cur));
            } else {
                assert(out@ =~= old(out)@ + "["@ + spec_int_list_body(cur));
            }
        }
        i += 1;
    }
    proof {
        assert(ids@.subrange(0, n as int) =~= ids@);
    }
    out.append("]");
    proof {
        assert(out@ =~= old(out)@ + spec_int_list(ids@));
    }
}

proof fn lemma_to_set_push(s: Seq<usize>, x: usize)
    ensures
        s.push(x).to_set() == s.to_set().insert(x),
{
    let t = s.push(x);
    assert forall|y: usize| t.to_set().contains(y) implies s.to_set().insert(x).contains(y) by {
        let w = choose|w: int| 0 <= w < t.len() && t[w] == y;
        if w < s.len() {
            assert(s[w] == y);
        }
    }
    assert forall|y: usize| s.to_set().insert(x).contains(y) implies t.to_set().contains(y) by {
        if y == x {
            assert(t[s.len() as int] == y);
        } else {
            let w = choose|w: int| 0 <= w < s.len() && s[w] == y;
            assert(t[w] == y);
        }
    }
    assert(t.to_set() =~= s.to_set().insert(x));
}

fn contains_usize(v: &Vec<usize>, x: usize) -> (r: bool)
    ensures
        r == v@.contains(x),
{
    let n: usize = v.len();
    let mut i: usize = 0;
    while i < n
        invariant
            n == v@.len(),
            i <= n,
            forall|k: int| 0 <= k < i ==> v@[k] != x,
        decreases n - i,
    {
        if v[i] == x {
            return true;
        }
        i += 1;
    }
    proof {
        if v@.contains(x) {
            let w = choose|w: int| 0 <= w < v@.len() && v@[w] == x;
            assert(false);
        }
    }
    false
}

proof fn lemma_assoc_update(s: Seq<(usize, usize)>, t: Seq<(usize, usize)>, i: int, k: usize, v: usize)
    requires
        0 <= i < s.len(),
        s[i].0 == k,
        forall|a: int, b: int| 0 <= a < b < s.len() ==> (#[trigger] s[a]).0 != (#[trigger] s[b]).0,
        t == s.update(i, (k, v)),
    ensures
        forall|q: usize|
            assoc_has(t, q) <==> (assoc_has(s, q) || q == k),
        forall|q: usize|
            assoc_has(t, q) && q != k ==> assoc_val(t, q) == assoc_val(s, q),
        assoc_has(t, k),
        assoc_val(t, k) == v,
        forall|x: int| 0 <= x < t.len() ==> (#[trigger] t[x]).0 == s[x].0,
{
    assert forall|q: usize| assoc_has(t, q) implies (assoc_has(s, q) || q == k) by {
        let w = choose|w: int| 0 <= w < t.len() && (#[trigger] t[w]).0 == q;
        if w != i {
            assert(s[w].0 == q);
        }
    }
    assert forall|q: usize| assoc_has(s, q) || q == k implies assoc_has(t, q) by {
        if q == k {
            assert(t[i].0 == k);
        } else {
            let w = choose|w: int| 0 <= w < s.len() && (#[trigger] s[w]).0 == q;
            assert(w != i);
            assert(t[w].0 == q);
        }
    }
    assert forall|q: usize| assoc_has(t, q) && q != k implies assoc_val(t, q) == assoc_val(s, q) by {
        let a = choose|a: int| 0 <= a < t.len() && (#[trigger] t[a]).0 == q;
        let b = choose|b: int| 0 <= b < s.len() && (#[trigger] s[b]).0 == q;
        assert(a != i);
        assert(s[a].0 == q);
        if a != b {
            assert(false);
        }
        assert(t[a].1 == s[b].1);
    }
    assert(t[i].0 == k);
    let a = choose|a: int| 0 <= a < t.len() && (#[trigger] t[a]).0 == k;
    if a != i {
        assert(s[a].0 == k);
        assert(false);
    }
}

proof fn lemma_assoc_push(s: Seq<(usize, usize)>, k: usize, v: usize)
    requires
        !assoc_has(s, k),
        forall|a: int, b: int| 0 <= a < b < s.len() ==> (#[trigger] s[a]).0 != (#[trigger] s[b]).0,
    ensures
        forall|q: usize| assoc_has(s.push((k, v)), q) <==> (assoc_has(s, q) || q == k),
        forall|q: usize|
            assoc_has(s, q) ==> assoc_val(s.push((k, v)), q) == assoc_val(s, q),
        assoc_val(s.push((k, v)), k) == v,
{
    let t = s.push((k, v));
    assert(t[s.len() as int].0 == k);
    assert forall|q: usize| assoc_has(t, q) implies (assoc_has(s, q) || q == k) by {
        let w = choose|w: int| 0 <= w < t.len() && (#[trigger] t[w]).0 == q;
        if w < s.len() {
            assert(s[w].0 == q);
        }
    }
    assert forall|q: usize| assoc_has(s, q) implies assoc_has(t, q) by {
        let w = choose|w: int| 0 <= w < s.len() && (#[trigger] s[w]).0 == q;
        assert(t[w].0 == q);
    }
    assert forall|q: usize| assoc_has(s, q) implies assoc_val(t, q) == assoc_val(s, q) by {
        assert(assoc_has(t, q));
        let a = choose|a: int| 0 <= a < t.len() && (#[trigger] t[a]).0 == q;
        let b = choose|b: int| 0 <= b < s.len() && (#[trigger] s[b]).0 == q;
        if a == s.len() {
            assert(t[a].0 == k);
            assert(false);
        }
        assert(s[a].0 == q);
        if a < b {
            assert(s[a].0 != s[b].0);
            assert(false);
        }
        if b < a {
            assert(s[b].0 != s[a].0);
            assert(false);
        }
        assert(t[a].1 == s[b].1);
    }
    let a = choose|a: int| 0 <= a < t.len() && (#[trigger] t[a]).0 == k;
    if a < s.len() {
        assert(s[a].0 == k);
        assert(false);
    }
}

/// URL identity: the two directions of the record are mutually inverse — an
/// interned id maps to a URL that maps back to that id, and an interned URL
/// maps to an id that maps back to that URL.
pub proof fn lemma_url_identity(rec: &Record)
    requires
        rec.wf(),
    ensures
        forall|i: int|
            rec.url_ids_map().dom().contains(i) ==> rec.urls_map().dom().contains(
                #[trigger] rec.url_ids_map()[i],
            ) && rec.urls_map()[rec.url_ids_map()[i]] == i,
        forall|u: Seq<char>|
            rec.urls_map().dom().contains(u) ==> rec.url_ids_map().dom().contains(
                #[trigger] rec.urls_map()[u],
            ) && rec.url_ids_map()[rec.urls_map()[u]] == u,
{
    assert forall|i: int| rec.url_ids_map().dom().contains(i) implies rec.urls_map().dom().contains(
        #[trigger] rec.url_ids_map()[i],
    ) && rec.urls_map()[rec.url_ids_map()[i]] == i by {
        let u = rec.urls_seq()[i];
        assert(rec.urls_seq().contains(u));
        let w = rec.urls_seq().index_of(u);
        assert(rec.urls_seq()[w] == u);
        if w != i {
            assert(false);
        }
    }
    assert forall|u: Seq<char>| rec.urls_map().dom().contains(u) implies rec.url_ids_map(
    ).dom().contains(#[trigger] rec.urls_map()[u]) && rec.url_ids_map()[rec.urls_map()[u]] == u by {
        let w = rec.urls_seq().index_of(u);
        assert(rec.urls_seq()[w] == u);
    }
}

/// Interning the same URL twice: when a first `check_add_url` returns
/// `Ok(i)`, leaving the record in state `middle`, any later call on a record
/// with the same URL table returns `Err(i)` with the identical id — the URL
/// is known and its id is exactly `i`.
pub proof fn lemma_check_add_url_twice(before: &Record, middle: &Record, url: Seq<char>, i: int)
    requires
        before.wf(),
        middle.wf(),
        !before.known(url),
        i == before.urls@.len(),
        middle.urls_seq() == before.urls_seq().push(url),
    ensures
        middle.known(url),
        middle.id_of(url) == i,
{
    assert(middle.urls_seq()[i] == url);
    assert(middle.known(url));
    let w = middle.urls_seq().index_of(url);
    assert(0 <= w < middle.urls_seq().len() && middle.urls_seq()[w] == url);
    if w < i {
        assert(middle.urls.deep_view()[w] != middle.urls.deep_view()[i]);
        assert(false);
    }
    if w > i {
        assert(middle.urls.deep_view()[i] != middle.urls.deep_view()[w]);
        assert(false);
    }
}

/// Dense ids: the domain of the `id -> url` map is exactly `{0, ..., N-1}`
/// where `N` is the number of interned URLs.
pub proof fn lemma_dense_ids(rec: &Record)
    requires
        rec.wf(),
    ensures
        rec.url_ids_map().dom() == Set::new(|i: int| 0 <= i < rec.urls@.len()),
{
    assert(rec.url_ids_map().dom() =~= Set::new(|i: int| 0 <= i < rec.urls@.len()));
}

} // verus!
