//! How a download is cut into chunks, which chunks still have to be fetched,
//! and where their parts are kept.
use vstd::prelude::*;
use crate::meta::MetaData;
use crate::text::{chars_of, push_char, push_str, push_decimal, decimal};

verus! {

/// The characters of `s` after its last `c`; all of `s` when there is none.
pub open spec fn after_last(s: Seq<char>, c: char) -> Seq<char>
    decreases s.len(),
{
    if s.len() == 0 {
        s
    } else if s.last() == c {
        Seq::empty()
    } else {
        after_last(s.drop_last(), c).push(s.last())
    }
}

/// The name a downloaded file is stored under: the text after the last `/` of its URL.
pub open spec fn file_name_of(url: Seq<char>) -> Seq<char> {
    after_last(url, '/')
}

proof fn lemma_after_last_from(s: Seq<char>, c: char, k: int)
    requires
        -1 <= k < s.len(),
        k >= 0 ==> s[k] == c,
        forall|j: int| k < j < s.len() ==> s[j] != c,
    ensures
        after_last(s, c) == s.subrange(k + 1, s.len() as int),
    decreases s.len(),
{
    if s.len() == 0 {
    } else if s.last() == c {
        assert(k == s.len() - 1);
    } else {
        lemma_after_last_from(s.drop_last(), c, k);
        assert(s.subrange(k + 1, s.len() as int) =~= s.drop_last().subrange(k + 1, s.len() - 1).push(s.last()));
    }
}

/// A string made of `chars[from..]`.
fn string_from(chars: &Vec<char>, from: usize) -> (r: String)
    requires
        from <= chars.len(),
    ensures
        r@ == chars@.subrange(from as int, chars.len() as int),
{
    let mut out = String::new();
    let mut i = from;
    while i < chars.len()
        invariant
            from <= i <= chars.len(),
            out@ == chars@.subrange(from as int, i as int),
        decreases chars.len() - i,
    {
        push_char(&mut out, chars[i]);
        i += 1;
        assert(chars@.subrange(from as int, i as int) =~= chars@.subrange(from as int, i - 1).push(chars@[i - 1]));
    }
    out
}

/// The file name a URL is stored under: what follows its last `/`.
pub fn file_name_from_url(url: &str) -> (r: String)
    ensures
        r@ == file_name_of(url@),
{
    let chars = chars_of(url);
    let mut k = chars.len();
    let mut found = false;
    while k > 0 && !found
        invariant
            k <= chars.len(),
            found ==> k < chars.len() && chars@[k as int] == '/',
            forall|j: int| k < j < chars.len() ==> chars@[j] != '/',
            !found ==> forall|j: int| k <= j < chars.len() ==> chars@[j] != '/',
        decreases k + (if found { 0int } else { 1int }),
    {
        if chars[k - 1] == '/' {
            k = k - 1;
            found = true;
        } else {
            k = k - 1;
        }
    }
    if found {
        proof {
            lemma_after_last_from(url@, '/', k as int);
        }
        string_from(&chars, k + 1)
    } else {
        proof {
            lemma_after_last_from(url@, '/', -1);
            assert(chars@.subrange(0, chars@.len() as int) =~= chars@);
        }
        string_from(&chars, 0)
    }
}

/// `dir/name`.
pub fn join_path(dir: &str, name: &str) -> (r: String)
    ensures
        r@ == dir@ + "/"@ + name@,
{
    let mut out = dir.to_owned();
    push_str(&mut out, "/");
    push_str(&mut out, name);
    out
}

/// The path a chunk is downloaded to: `path.part<index>`.
pub open spec fn part_path_of(path: Seq<char>, index: nat) -> Seq<char> {
    path + ".part"@ + decimal(index)
}

/// The path chunk `index` of `path` is downloaded to.
pub fn part_path(path: &str, index: usize) -> (r: String)
    ensures
        r@ == part_path_of(path@, index as nat),
{
    let mut out = path.to_owned();
    push_str(&mut out, ".part");
    push_decimal(&mut out, index as u64);
    out
}

/// The chunk size a file of `size` bytes gets when cut into `chunks` chunks:
/// `size / chunks` rounded up.
pub open spec fn chunk_size_for(size: nat, chunks: nat) -> nat {
    ((size + chunks - 1) as nat / chunks) as nat
}

/// The first byte of chunk `i`.
pub open spec fn chunk_start(i: nat, chunk_size: nat) -> nat {
    i * chunk_size
}

/// The last byte of chunk `i`, never past the last byte of the file.
pub open spec fn chunk_end(i: nat, chunk_size: nat, size: nat) -> int {
    let e = (i + 1) * chunk_size - 1;
    if size - 1 < e {
        size - 1
    } else {
        e
    }
}

/// Chunk `i` can be laid out without the arithmetic going wrong: the chunk size is
/// positive, the chunk's end is a `u64`, and it starts within the file.
pub open spec fn chunk_fits(i: nat, chunk_size: nat, size: nat) -> bool {
    &&& size >= 1
    &&& chunk_size >= 1
    &&& (i + 1) * chunk_size <= u64::MAX
    &&& i * chunk_size <= size - 1
}

/// Every chunk still to be fetched fits, and there is a progress flag for every chunk.
pub open spec fn layout_ok(size: u64, meta: MetaData) -> bool {
    &&& meta.progress@.len() >= meta.chunks
    &&& forall|i: int|
        0 <= i < meta.chunks && !#[trigger] meta.progress@[i] ==> chunk_fits(
            i as nat,
            meta.chunk_size as nat,
            size as nat,
        )
}

/// A fresh record can be made: at least one chunk, and `size + chunks` is a `u64`.
pub open spec fn fresh_meta_ok(size: u64, chunks: usize) -> bool {
    chunks > 0 && size + chunks <= u64::MAX
}

/// The record of a download that has not begun.
pub open spec fn is_fresh_meta(m: MetaData, url: Seq<char>, file: Seq<char>, size: u64, chunks: usize) -> bool {
    &&& m.url@ == url
    &&& m.file@ == file
    &&& m.size == size
    &&& m.chunk_size == chunk_size_for(size as nat, chunks as nat)
    &&& m.chunks == chunks
    &&& m.progress@ == Seq::new(chunks as nat, |i: int| false)
}

/// The record of a download that has not begun: no chunk is on disk yet.
pub fn fresh_meta(url: &str, file: &str, size: u64, chunks: usize) -> (m: MetaData)
    requires
        fresh_meta_ok(size, chunks),
    ensures
        is_fresh_meta(m, url@, file@, size, chunks),
{
    let mut progress: Vec<bool> = Vec::new();
    let mut i: usize = 0;
    while i < chunks
        invariant
            i <= chunks,
            progress@ == Seq::new(i as nat, |j: int| false),
        decreases chunks - i,
    {
        progress.push(false);
        i += 1;
        assert(progress@ =~= Seq::new(i as nat, |j: int| false));
    }
    let c = chunks as u64;
    MetaData {
        url: url.to_owned(),
        file: file.to_owned(),
        size,
        chunk_size: (size + c - 1) / c,
        chunks,
        progress,
    }
}

/// The record a download goes on with: the one loaded from disk when there is
/// one, else a fresh one.
pub fn meta_to_use(url: &str, file: &str, size: u64, chunks: usize, loaded: Option<MetaData>) -> (m: MetaData)
    requires
        loaded is None ==> fresh_meta_ok(size, chunks),
    ensures
        match loaded {
            Some(l) => m == l,
            None => is_fresh_meta(m, url@, file@, size, chunks),
        },
{
    match loaded {
        Some(l) => l,
        None => fresh_meta(url, file, size, chunks),
    }
}

/// One chunk to fetch: its index, its byte range and its part file.
pub struct ChunkJob {
    pub index: usize,
    pub start: u64,
    pub end: u64,
    pub part_path: String,
}

/// Job `i` of a download of `size` bytes to `path`, cut into chunks of `chunk_size`.
pub open spec fn is_job(j: ChunkJob, i: nat, chunk_size: nat, size: nat, path: Seq<char>) -> bool {
    &&& j.index == i
    &&& j.start == chunk_start(i, chunk_size)
    &&& j.end == chunk_end(i, chunk_size, size)
    &&& j.part_path@ == part_path_of(path, i)
}

/// The indices, in increasing order, of the chunks not yet on disk among the first `n`.
pub open spec fn pending_indices(progress: Seq<bool>, n: nat) -> Seq<nat>
    decreases n,
{
    if n == 0 {
        Seq::empty()
    } else if progress[n - 1] {
        pending_indices(progress, (n - 1) as nat)
    } else {
        pending_indices(progress, (n - 1) as nat).push((n - 1) as nat)
    }
}

/// The jobs a download still has: one per chunk not yet on disk, in chunk order.
pub open spec fn jobs_for(jobs: Seq<ChunkJob>, path: Seq<char>, size: u64, meta: MetaData) -> bool {
    let idx = pending_indices(meta.progress@, meta.chunks as nat);
    &&& jobs.len() == idx.len()
    &&& forall|k: int|
        0 <= k < jobs.len() ==> is_job(
            #[trigger] jobs[k],
            idx[k],
            meta.chunk_size as nat,
            size as nat,
            path,
        )
}

proof fn lemma_job_bounds(i: nat, chunk_size: nat, size: nat)
    requires
        chunk_fits(i, chunk_size, size),
    ensures
        i * chunk_size <= u64::MAX,
        chunk_start(i, chunk_size) <= chunk_end(i, chunk_size, size),
        (i + 1) * chunk_size == i * chunk_size + chunk_size,
{
    assert((i + 1) * chunk_size == i * chunk_size + chunk_size) by (nonlinear_arith);
}

proof fn lemma_pending_indices(progress: Seq<bool>, n: nat)
    requires
        n <= progress.len(),
    ensures
        forall|k: int|
            0 <= k < pending_indices(progress, n).len() ==> #[trigger] pending_indices(progress, n)[k] < n
                && !progress[pending_indices(progress, n)[k] as int],
        forall|i: int|
            0 <= i < n && !#[trigger] progress[i] ==> exists|k: int|
                0 <= k < pending_indices(progress, n).len() && pending_indices(progress, n)[k] == i,
        forall|a: int, b: int|
            0 <= a < b < pending_indices(progress, n).len() ==> pending_indices(progress, n)[a]
                < pending_indices(progress, n)[b],
    decreases n,
{
    if n > 0 {
        let m = (n - 1) as nat;
        lemma_pending_indices(progress, m);
        let prev = pending_indices(progress, m);
        let now = pending_indices(progress, n);
        if !progress[m as int] {
            assert(now == prev.push(m));
            assert forall|i: int| 0 <= i < n && !#[trigger] progress[i] implies exists|k: int|
                0 <= k < now.len() && now[k] == i by {
                if i == m {
                    assert(now[prev.len() as int] == i);
                } else {
                    let k = choose|k: int| 0 <= k < prev.len() && prev[k] == i;
                    assert(now[k] == prev[k]);
                }
            }
        }
    }
}

/// The jobs of a download are exactly its chunks not yet on disk, each once, in
/// increasing order: a finished chunk is never fetched again.
pub proof fn law_jobs_are_unfinished_chunks(jobs: Seq<ChunkJob>, path: Seq<char>, size: u64, meta: MetaData)
    requires
        meta.progress@.len() >= meta.chunks,
        jobs_for(jobs, path, size, meta),
    ensures
        forall|k: int| 0 <= k < jobs.len() ==> #[trigger] jobs[k].index < meta.chunks && !meta.progress@[jobs[k].index as int],
        forall|i: int| 0 <= i < meta.chunks && !#[trigger] meta.progress@[i] ==> exists|k: int| 0 <= k < jobs.len() && jobs[k].index == i,
        forall|a: int, b: int| 0 <= a < b < jobs.len() ==> jobs[a].index < jobs[b].index,
{
    let idx = pending_indices(meta.progress@, meta.chunks as nat);
    lemma_pending_indices(meta.progress@, meta.chunks as nat);
    assert forall|k: int| 0 <= k < jobs.len() implies #[trigger] jobs[k].index < meta.chunks && !meta.progress@[jobs[k].index as int] by {
        assert(is_job(jobs[k], idx[k], meta.chunk_size as nat, size as nat, path));
    }
    assert forall|i: int| 0 <= i < meta.chunks && !#[trigger] meta.progress@[i] implies exists|k: int| 0 <= k < jobs.len() && jobs[k].index == i by {
        let k = choose|k: int| 0 <= k < idx.len() && idx[k] == i;
        assert(is_job(jobs[k], idx[k], meta.chunk_size as nat, size as nat, path));
    }
    assert forall|a: int, b: int| 0 <= a < b < jobs.len() implies jobs[a].index < jobs[b].index by {
        assert(is_job(jobs[a], idx[a], meta.chunk_size as nat, size as nat, path));
        assert(is_job(jobs[b], idx[b], meta.chunk_size as nat, size as nat, path));
    }
}

/// A download whose record has one flag per chunk is complete, and its parts can
/// be merged, exactly when it has no job left.
pub proof fn law_done_iff_no_jobs(jobs: Seq<ChunkJob>, path: Seq<char>, size: u64, meta: MetaData)
    requires
        meta.progress@.len() == meta.chunks,
        jobs_for(jobs, path, size, meta),
    ensures
        all_done(meta.progress@) <==> jobs.len() == 0,
{
    law_jobs_are_unfinished_chunks(jobs, path, size, meta);
    if jobs.len() > 0 {
        assert(!meta.progress@[jobs[0].index as int]);
    }
    if jobs.len() == 0 {
        assert forall|i: int| 0 <= i < meta.progress@.len() implies #[trigger] meta.progress@[i] by {
            if !meta.progress@[i] {
                let k = choose|k: int| 0 <= k < jobs.len() && jobs[k].index == i;
            }
        }
    }
}

/// The chunks of `meta` still to be fetched, with their byte ranges and part files.
pub fn pending_jobs(path: &str, size: u64, meta: &MetaData) -> (jobs: Vec<ChunkJob>)
    requires
        layout_ok(size, *meta),
    ensures
        jobs_for(jobs@, path@, size, *meta),
{
    let mut jobs: Vec<ChunkJob> = Vec::new();
    let mut i: usize = 0;
    while i < meta.chunks
        invariant
            i <= meta.chunks,
            layout_ok(size, *meta),
            jobs_for(jobs@, path@, size, MetaData { chunks: i, ..*meta }),
        decreases meta.chunks - i,
    {
        let ghost before = jobs@;
        if !meta.progress[i] {
            let ghost gi = i as nat;
            proof {
                lemma_job_bounds(gi, meta.chunk_size as nat, size as nat);
            }
            let start = i as u64 * meta.chunk_size;
            let next = start + meta.chunk_size;
            let end = if size - 1 < next - 1 { size - 1 } else { next - 1 };
            jobs.push(ChunkJob { index: i, start, end, part_path: part_path(path, i) });
            proof {
                let idx = pending_indices(meta.progress@, (i + 1) as nat);
                assert(idx == pending_indices(meta.progress@, i as nat).push(i as nat));
                assert forall|k: int| 0 <= k < jobs@.len() implies is_job(
                    #[trigger] jobs@[k], idx[k], meta.chunk_size as nat, size as nat, path@) by {
                    if k < before.len() {
                        assert(jobs@[k] == before[k]);
                    }
                }
            }
        } else {
            assert(pending_indices(meta.progress@, (i + 1) as nat) == pending_indices(meta.progress@, i as nat));
        }
        i += 1;
    }
    jobs
}

/// The part files of all chunks `0..chunks`, in order.
pub fn all_part_paths(path: &str, chunks: usize) -> (r: Vec<String>)
    ensures
        r@.len() == chunks,
        forall|i: int| 0 <= i < chunks ==> #[trigger] r@[i]@ == part_path_of(path@, i as nat),
{
    let mut out: Vec<String> = Vec::new();
    let mut i: usize = 0;
    while i < chunks
        invariant
            i <= chunks,
            out@.len() == i,
            forall|k: int| 0 <= k < i ==> #[trigger] out@[k]@ == part_path_of(path@, k as nat),
        decreases chunks - i,
    {
        out.push(part_path(path, i));
        i += 1;
    }
    out
}

/// Every chunk is on disk.
pub open spec fn all_done(progress: Seq<bool>) -> bool {
    forall|i: int| 0 <= i < progress.len() ==> #[trigger] progress[i]
}

/// Whether every chunk is on disk, so that the parts can be merged.
pub fn all_chunks_done(progress: &Vec<bool>) -> (r: bool)
    ensures
        r == all_done(progress@),
{
    let mut i: usize = 0;
    while i < progress.len()
        invariant
            i <= progress.len(),
            forall|k: int| 0 <= k < i ==> #[trigger] progress@[k],
        decreases progress.len() - i,
    {
        if !progress[i] {
            return false;
        }
        i += 1;
    }
    true
}

/// Whether every chunk still to be fetched fits (see `layout_ok`).
pub fn layout_fits(size: u64, meta: &MetaData) -> (r: bool)
    ensures
        r == layout_ok(size, *meta),
{
    if meta.progress.len() < meta.chunks {
        return false;
    }
    let cs = meta.chunk_size;
    let mut i: usize = 0;
    while i < meta.chunks
        invariant
            i <= meta.chunks <= meta.progress@.len(),
            cs == meta.chunk_size,
            forall|k: int|
                0 <= k < i && !#[trigger] meta.progress@[k] ==> chunk_fits(
                    k as nat,
                    cs as nat,
                    size as nat,
                ),
        decreases meta.chunks - i,
    {
        if !meta.progress[i] {
            let n = i as u64 + 1;
            if size == 0 || cs == 0 {
                return false;
            }
            match n.checked_mul(cs) {
                Some(next) => {
                    proof {
                        lemma_job_bounds_weak(i as nat, cs as nat);
                    }
                    let start = next - cs;
                    if start > size - 1 {
                        return false;
                    }
                },
                None => {
                    return false;
                },
            }
        }
        i += 1;
    }
    true
}

proof fn lemma_job_bounds_weak(i: nat, chunk_size: nat)
    ensures
        (i + 1) * chunk_size == i * chunk_size + chunk_size,
{
    assert((i + 1) * chunk_size == i * chunk_size + chunk_size) by (nonlinear_arith);
}

proof fn lemma_ceil_div(size: nat, chunks: nat)
    requires
        chunks > 0,
    ensures
        chunks * chunk_size_for(size, chunks) >= size,
{
    let cs = chunk_size_for(size, chunks);
    let t = (size + chunks - 1) as nat;
    assert(t == chunks * (t / chunks) + t % chunks) by (nonlinear_arith)
        requires
            chunks > 0,
    ;
    assert(t % chunks < chunks) by (nonlinear_arith)
        requires
            chunks > 0,
    ;
}

proof fn lemma_ceil_div_upper(size: nat, chunks: nat)
    requires
        chunks > 0,
    ensures
        chunks * chunk_size_for(size, chunks) <= size + chunks - 1,
{
    let t = (size + chunks - 1) as nat;
    assert(chunks * (t / chunks) <= t) by (nonlinear_arith)
        requires
            chunks > 0,
    ;
}

/// A fresh record can be laid out without the arithmetic going wrong exactly
/// when the file is not empty and its last chunk starts within it.
pub proof fn law_fresh_layout_ok(m: MetaData, url: Seq<char>, file: Seq<char>, size: u64, chunks: usize)
    requires
        fresh_meta_ok(size, chunks),
        is_fresh_meta(m, url, file, size, chunks),
    ensures
        layout_ok(size, m) <==> (size >= 1 && (chunks - 1) * m.chunk_size <= size - 1),
{
    let cs = m.chunk_size as nat;
    let n = chunks as nat;
    if size >= 1 && (chunks - 1) * m.chunk_size <= size - 1 {
        lemma_ceil_div(size as nat, n);
        lemma_ceil_div_upper(size as nat, n);
        assert(cs >= 1) by {
            if cs == 0 {
                assert(n * cs == 0) by (nonlinear_arith)
                    requires
                        cs == 0,
                ;
            }
        }
        assert forall|i: int| 0 <= i < m.chunks && !#[trigger] m.progress@[i] implies chunk_fits(
            i as nat, cs, size as nat) by {
            lemma_mul_le(i as nat, (n - 1) as nat, cs);
            lemma_mul_le((i + 1) as nat, n, cs);
        }
    }
    if layout_ok(size, m) {
        let last = chunks - 1;
        assert(!m.progress@[last as int]);
        assert(chunk_fits(last as nat, cs, size as nat));
    }
}

proof fn lemma_mul_le(a: nat, b: nat, c: nat)
    requires
        a <= b,
    ensures
        a * c <= b * c,
{
    assert(a * c <= b * c) by (nonlinear_arith)
        requires
            a <= b,
    ;
}

/// A fresh record whose chunks are all non-empty cuts the file into ranges that
/// cover it exactly: the first starts at byte 0, each starts right after the one
/// before, none is empty, and the last ends at the file's last byte.
pub proof fn law_fresh_chunks_tile(size: nat, chunks: nat)
    requires
        chunks > 0,
        size >= 1,
        (chunks - 1) * chunk_size_for(size, chunks) <= size - 1,
    ensures
        chunk_start(0, chunk_size_for(size, chunks)) == 0,
        chunk_end((chunks - 1) as nat, chunk_size_for(size, chunks), size) == size - 1,
        forall|i: nat|
            i + 1 < chunks ==> #[trigger] chunk_start(i + 1, chunk_size_for(size, chunks))
                == chunk_end(i, chunk_size_for(size, chunks), size) + 1,
        forall|i: nat|
            i < chunks ==> chunk_start(i, chunk_size_for(size, chunks)) <= #[trigger] chunk_end(
                i,
                chunk_size_for(size, chunks),
                size,
            ),
{
    let cs = chunk_size_for(size, chunks);
    lemma_ceil_div(size, chunks);
    assert(0 * cs == 0);
    assert(((chunks - 1) as nat + 1) * cs == chunks * cs);
    assert(cs >= 1) by {
        if cs == 0 {
            assert(chunks * cs == 0) by (nonlinear_arith)
                requires
                    cs == 0,
            ;
        }
    }
    assert forall|i: nat| i + 1 < chunks implies #[trigger] chunk_start(i + 1, cs) == chunk_end(i, cs, size) + 1 by {
        lemma_mul_le(i + 1, (chunks - 1) as nat, cs);
    }
    assert forall|i: nat| i < chunks implies chunk_start(i, cs) <= #[trigger] chunk_end(i, cs, size) by {
        lemma_mul_le(i, (chunks - 1) as nat, cs);
        lemma_job_bounds_weak(i, cs);
    }
}

/// The `Range` header value asking for bytes `from..=to`.
pub open spec fn range_header_of(from: nat, to: nat) -> Seq<char> {
    "bytes="@ + decimal(from) + "-"@ + decimal(to)
}

/// The `Range` header value asking for bytes `from..=to`: `bytes=<from>-<to>`.
pub fn range_header(from: u64, to: u64) -> (r: String)
    ensures
        r@ == range_header_of(from as nat, to as nat),
{
    let mut out = String::new();
    push_str(&mut out, "bytes=");
    push_decimal(&mut out, from);
    push_str(&mut out, "-");
    push_decimal(&mut out, to);
    out
}

/// Where the next request for the chunk `start..=end` begins once `downloaded`
/// of its bytes are on disk; `None` when the chunk is complete.
pub fn resume_from(start: u64, end: u64, downloaded: u64) -> (r: Option<u64>)
    requires
        start <= end,
        end - start < u64::MAX,
    ensures
        downloaded < end - start + 1 ==> r == Some((start + downloaded) as u64),
        downloaded >= end - start + 1 ==> r is None,
{
    let total = end - start + 1;
    if downloaded < total {
        Some(start + downloaded)
    } else {
        None
    }
}

/// `after` is `before` with one more chunk recorded as on disk, all else kept.
pub open spec fn chunk_marked(before: MetaData, after: MetaData) -> bool {
    &&& exists|i: int| 0 <= i < before.progress@.len() && after.progress@ == before.progress@.update(i, true)
    &&& after.url == before.url
    &&& after.file == before.file
    &&& after.size == before.size
    &&& after.chunk_size == before.chunk_size
    &&& after.chunks == before.chunks
}

/// Records chunk `index` as on disk.
pub fn mark_chunk_done(meta: &mut MetaData, index: usize)
    requires
        index < old(meta).progress@.len(),
    ensures
        final(meta).progress@ == old(meta).progress@.update(index as int, true),
        final(meta).url == old(meta).url,
        final(meta).file == old(meta).file,
        final(meta).size == old(meta).size,
        final(meta).chunk_size == old(meta).chunk_size,
        final(meta).chunks == old(meta).chunks,
        chunk_marked(*old(meta), *final(meta)),
{
    meta.progress.set(index, true);
    assert(meta.progress@ == old(meta).progress@.update(index as int, true));
}

/// A record whose remaining chunks fit still fits after one more chunk is marked
/// done: a resumed download can always go on, whichever chunks are finished.
pub proof fn law_marking_keeps_layout_usable(size: u64, m: MetaData, m2: MetaData)
    requires
        layout_ok(size, m),
        chunk_marked(m, m2),
    ensures
        layout_ok(size, m2),
{
    let i = choose|i: int| 0 <= i < m.progress@.len() && m2.progress@ == m.progress@.update(i, true);
    assert forall|j: int| 0 <= j < m2.chunks && !#[trigger] m2.progress@[j] implies chunk_fits(
        j as nat,
        m2.chunk_size as nat,
        size as nat,
    ) by {
        assert(j != i);
        assert(m2.progress@[j] == m.progress@[j]);
    }
}

/// Whether a record fits depends only on the chunks still to be fetched: a record
/// with the same layout and at least the same chunks finished fits whenever the
/// first one does.
pub proof fn law_layout_ignores_finished_chunks(size: u64, m: MetaData, m2: MetaData)
    requires
        layout_ok(size, m),
        m2.chunks == m.chunks,
        m2.chunk_size == m.chunk_size,
        m2.progress@.len() == m.progress@.len(),
        forall|j: int| 0 <= j < m.progress@.len() && #[trigger] m.progress@[j] ==> m2.progress@[j],
    ensures
        layout_ok(size, m2),
{
    assert forall|j: int| 0 <= j < m2.chunks && !#[trigger] m2.progress@[j] implies chunk_fits(
        j as nat,
        m2.chunk_size as nat,
        size as nat,
    ) by {
        assert(!m.progress@[j]);
    }
}

/// A record of the download of `url` into `file`: its URL, file name, size and
/// chunk count, the chunk size `size / chunks` rounded up, and one flag per chunk.
pub open spec fn keeps_layout(m: MetaData, url: Seq<char>, file: Seq<char>, size: u64, chunks: usize) -> bool {
    &&& m.url@ == url
    &&& m.file@ == file
    &&& m.size == size
    &&& m.chunks == chunks
    &&& m.chunk_size == chunk_size_for(size as nat, chunks as nat)
    &&& m.progress@.len() == chunks
}

/// Every record a fresh download saves, the fresh one and each one after it that
/// marks a chunk done in the one before, keeps the download's URL, file name,
/// size and chunk count, the rounded-up chunk size and one flag per chunk.
pub proof fn law_saved_records_keep_layout(records: Seq<MetaData>, url: Seq<char>, file: Seq<char>, size: u64, chunks: usize)
    requires
        records.len() >= 1,
        is_fresh_meta(records[0], url, file, size, chunks),
        forall|j: int, k: int| 0 <= j && k == j + 1 && k < records.len() ==> #[trigger] chunk_marked(records[j], records[k]),
    ensures
        forall|k: int| 0 <= k < records.len() ==> #[trigger] keeps_layout(records[k], url, file, size, chunks),
    decreases records.len(),
{
    if records.len() > 1 {
        let prev = records.drop_last();
        assert forall|j: int, k: int| 0 <= j && k == j + 1 && k < prev.len() implies #[trigger] chunk_marked(prev[j], prev[k]) by {
            assert(prev[j] == records[j] && prev[k] == records[k]);
            assert(chunk_marked(records[j], records[k]));
        }
        law_saved_records_keep_layout(prev, url, file, size, chunks);
        let n = records.len() - 1;
        assert(keeps_layout(prev[n - 1], url, file, size, chunks));
        assert(chunk_marked(records[n - 1], records[n]));
        assert forall|k: int| 0 <= k < records.len() implies #[trigger] keeps_layout(records[k], url, file, size, chunks) by {
            if k < n {
                assert(records[k] == prev[k]);
                assert(keeps_layout(prev[k], url, file, size, chunks));
            }
        }
    }
}

} // verus!
