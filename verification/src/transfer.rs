//! Chunked file transfers between the client and the agent.
use vstd::prelude::*;
use crate::error::{AgentException, error2};
use crate::ids::{make_id, session_id};
use crate::registry::Registry;

verus! {

/// An upload in progress: data goes to `tmp_path`, which becomes `path` when it finishes.
#[derive(Debug)]
pub struct Upload<F> {
    pub file: F,
    pub path: String,
    pub tmp_path: String,
}

/// A download in progress, with the number of bytes still to send.
#[derive(Debug)]
pub struct Download<F> {
    pub file: F,
    pub remaining: i64,
}

/// The answer to the start of a download: its id and the file's size.
#[derive(Debug)]
pub struct DownloadInfo {
    pub transfer_id: String,
    pub file_size: i64,
}

/// The path an upload writes to until it finishes: `<path>.tmp`.
pub open spec fn temp_path_of(path: Seq<char>) -> Seq<char> {
    path + ".tmp"@
}

/// `format!("{}.tmp", path)`.
pub fn temp_path(path: &str) -> (r: String)
    ensures
        r@ == temp_path_of(path@),
{
    let mut r = String::from_str(path);
    r.append(".tmp");
    r
}

/// How many bytes a download answers when `asked` are asked for and `remaining` are left:
/// the smaller of the two.
pub open spec fn chunk_len(asked: int, remaining: int) -> int {
    if asked <= remaining { asked } else { remaining }
}

/// The sum of a sequence of integers.
pub open spec fn int_sum(s: Seq<int>) -> int
    decreases s.len(),
{
    if s.len() == 0 { 0 } else { int_sum(s.drop_last()) + s.last() }
}

/// The lengths of the chunks a download of `size` bytes answers, in order, to requests for
/// `asked` bytes, when each chunk is recorded as sent before the next is asked for.
pub open spec fn chunk_series(size: int, asked: Seq<int>) -> Seq<int>
    decreases asked.len(),
{
    if asked.len() == 0 {
        Seq::empty()
    } else {
        let before = chunk_series(size, asked.drop_last());
        before.push(chunk_len(asked.last(), size - int_sum(before)))
    }
}

/// Sums of longer prefixes of a sequence of non-negative numbers are no smaller.
pub proof fn lemma_prefix_sums_grow(s: Seq<int>, i: int, j: int)
    requires
        0 <= i <= j <= s.len(),
        forall|k: int| 0 <= k < s.len() ==> s[k] >= 0,
    ensures
        int_sum(s.take(i)) <= int_sum(s.take(j)),
    decreases j - i,
{
    if i < j {
        lemma_prefix_sums_grow(s, i, j - 1);
        assert(s.take(j).drop_last() =~= s.take(j - 1));
    }
}

/// Each chunk of a series is at most what was asked and what was left, and together
/// they are at most the file.
pub proof fn lemma_chunk_series_bounds(size: int, asked: Seq<int>)
    requires
        size >= 0,
        forall|k: int| 0 <= k < asked.len() ==> asked[k] >= 0,
    ensures
        chunk_series(size, asked).len() == asked.len(),
        forall|k: int| 0 <= k < asked.len() ==> 0 <= #[trigger] chunk_series(size, asked)[k] <= asked[k],
        forall|k: int| 0 <= k < asked.len() ==> #[trigger] chunk_series(size, asked)[k]
            <= size - int_sum(chunk_series(size, asked).take(k)),
        0 <= int_sum(chunk_series(size, asked)) <= size,
    decreases asked.len(),
{
    if asked.len() > 0 {
        let s = chunk_series(size, asked);
        let before = chunk_series(size, asked.drop_last());
        lemma_chunk_series_bounds(size, asked.drop_last());
        let n = (asked.len() - 1) as int;
        assert(s.drop_last() =~= before);
        assert forall|k: int| 0 <= k < asked.len() implies 0 <= #[trigger] s[k] <= asked[k]
            && s[k] <= size - int_sum(s.take(k)) by {
            if k < n {
                assert(asked.drop_last()[k] == asked[k]);
                assert(s[k] == before[k]);
                assert(s.take(k) =~= before.take(k));
            } else {
                assert(s.take(k) =~= before);
            }
        }
    }
}

/// A download of `size` bytes read in chunks of the sizes `asked`, each chunk recorded as
/// sent: every chunk is at most what was asked and what was left, all of them together
/// are at most the file, and once the whole file has been sent every further chunk is empty.
pub proof fn law_chunks_stay_within_file(size: int, asked: Seq<int>)
    requires
        size >= 0,
        forall|k: int| 0 <= k < asked.len() ==> asked[k] >= 0,
    ensures
        chunk_series(size, asked).len() == asked.len(),
        forall|k: int| 0 <= k < asked.len() ==> 0 <= #[trigger] chunk_series(size, asked)[k] <= asked[k],
        forall|k: int| 0 <= k < asked.len() ==> #[trigger] chunk_series(size, asked)[k]
            <= size - int_sum(chunk_series(size, asked).take(k)),
        0 <= int_sum(chunk_series(size, asked)) <= size,
        forall|i: int, j: int|
            #![trigger int_sum(chunk_series(size, asked).take(i)), chunk_series(size, asked)[j]]
            0 <= i <= j < asked.len() && int_sum(chunk_series(size, asked).take(i)) == size
                ==> chunk_series(size, asked)[j] == 0,
{
    let s = chunk_series(size, asked);
    lemma_chunk_series_bounds(size, asked);
    assert forall|i: int, j: int|
        #![trigger int_sum(s.take(i)), s[j]]
        0 <= i <= j < asked.len() && int_sum(s.take(i)) == size implies s[j] == 0 by {
        lemma_prefix_sums_grow(s, i, j);
    }
}

/// Reads of a download of `size` bytes, in order: the `k`-th asked for `asked[k]` bytes
/// and returned `got[k]`, no more than `download_chunk` allowed once the earlier reads
/// were recorded as sent (a read may return fewer bytes than allowed).
pub open spec fn reads_within(size: int, asked: Seq<int>, got: Seq<int>) -> bool {
    &&& got.len() == asked.len()
    &&& forall|k: int| 0 <= k < got.len()
        ==> 0 <= #[trigger] got[k] <= chunk_len(asked[k], size - int_sum(got.take(k)))
}

proof fn lemma_read_prefixes_bounded(size: int, asked: Seq<int>, got: Seq<int>, k: int)
    requires
        size >= 0,
        reads_within(size, asked, got),
        0 <= k <= got.len(),
    ensures
        0 <= int_sum(got.take(k)) <= size,
    decreases k,
{
    if k == 0 {
        assert(got.take(0) =~= Seq::<int>::empty());
    } else {
        lemma_read_prefixes_bounded(size, asked, got, k - 1);
        assert(got.take(k).drop_last() =~= got.take(k - 1));
        assert(got.take(k).last() == got[k - 1]);
    }
}

/// Reads of a download that may each return fewer bytes than asked: every read is at
/// most what was asked and what was left, all of them together are at most the file,
/// and once the whole file has been sent every further read is empty.
pub proof fn law_reads_stay_within_file(size: int, asked: Seq<int>, got: Seq<int>)
    requires
        size >= 0,
        reads_within(size, asked, got),
    ensures
        forall|k: int| 0 <= k < got.len() ==> #[trigger] got[k] <= asked[k]
            && got[k] <= size - int_sum(got.take(k)),
        forall|k: int| 0 <= k <= got.len() ==> 0 <= #[trigger] int_sum(got.take(k)) <= size,
        0 <= int_sum(got) <= size,
        forall|i: int, j: int|
            #![trigger int_sum(got.take(i)), got[j]]
            0 <= i <= j < got.len() && int_sum(got.take(i)) == size ==> got[j] == 0,
{
    assert forall|k: int| 0 <= k <= got.len() implies 0 <= #[trigger] int_sum(got.take(k)) <= size by {
        lemma_read_prefixes_bounded(size, asked, got, k);
    }
    lemma_read_prefixes_bounded(size, asked, got, got.len() as int);
    assert(got.take(got.len() as int) =~= got);
    assert forall|i: int, j: int|
        #![trigger int_sum(got.take(i)), got[j]]
        0 <= i <= j < got.len() && int_sum(got.take(i)) == size implies got[j] == 0 by {
        lemma_prefix_sums_grow(got, i, j);
        lemma_read_prefixes_bounded(size, asked, got, j);
    }
}

/// The uploads and downloads in progress, each under its own id. The handle type `F`
/// is whatever reads or writes the file.
pub struct TransferManager<F> {
    uploads: Registry<Upload<F>>,
    downloads: Registry<Download<F>>,
    counter: u64,
}

impl<F> TransferManager<F> {
    pub closed spec fn uploads(&self) -> Map<Seq<char>, Upload<F>> {
        self.uploads.map()
    }

    pub closed spec fn downloads(&self) -> Map<Seq<char>, Download<F>> {
        self.downloads.map()
    }

    /// How many ids have been handed out; the next is one more.
    pub closed spec fn issued(&self) -> nat {
        self.counter as nat
    }

    /// The tables are consistent, and no download has a negative count of bytes to send.
    pub closed spec fn wf(&self) -> bool {
        &&& self.uploads.wf()
        &&& self.downloads.wf()
        &&& forall|k: Seq<char>| #[trigger] self.downloads.map().dom().contains(k)
            ==> self.downloads.map()[k].remaining >= 0
    }

    pub fn new() -> (t: Self)
        ensures
            t.wf(),
            t.uploads() == Map::<Seq<char>, Upload<F>>::empty(),
            t.downloads() == Map::<Seq<char>, Download<F>>::empty(),
            t.issued() == 0,
    {
        TransferManager { uploads: Registry::new(), downloads: Registry::new(), counter: 0 }
    }

    /// How many ids have been handed out.
    pub fn issued_count(&self) -> (n: u64)
        ensures
            n == self.issued(),
    {
        self.counter
    }

    fn next_id(&mut self, prefix: &str) -> (id: String)
        requires
            old(self).issued() < u64::MAX,
        ensures
            final(self).issued() == old(self).issued() + 1,
            id@ == session_id(prefix@, final(self).issued()),
            final(self).uploads == old(self).uploads,
            final(self).downloads == old(self).downloads,
    {
        self.counter = self.counter + 1;
        make_id(prefix, self.counter)
    }

    /// Starts an upload to `path` whose data goes to `file`, opened on `<path>.tmp`;
    /// answers the new id `up-<n>`.
    pub fn begin_upload(&mut self, path: String, file: F) -> (id: String)
        requires
            old(self).wf(),
            old(self).issued() < u64::MAX,
        ensures
            final(self).wf(),
            final(self).issued() == old(self).issued() + 1,
            id@ == session_id("up"@, final(self).issued()),
            final(self).uploads() == old(self).uploads().insert(id@, final(self).uploads()[id@]),
            final(self).uploads()[id@].file == file,
            final(self).uploads()[id@].path == path,
            final(self).uploads()[id@].tmp_path@ == temp_path_of(path@),
            final(self).downloads() == old(self).downloads(),
    {
        let tmp_path = temp_path(path.as_str());
        let id = self.next_id("up");
        let key = id.clone();
        self.uploads.insert(key, Upload { file, path, tmp_path });
        id
    }

    /// The file an upload writes to, or the error for an unknown id.
    pub fn upload_file(&self, transfer_id: &str) -> (r: Result<&F, AgentException>)
        requires
            self.wf(),
        ensures
            r is Ok <==> self.uploads().dom().contains(transfer_id@),
            r matches Ok(f) ==> *f == self.uploads()[transfer_id@].file,
            r matches Err(e) ==> e.message@ == "Unknown upload: "@ + transfer_id@,
    {
        match self.uploads.get(transfer_id) {
            Some(u) => Ok(&u.file),
            None => Err(error2("Unknown upload: ", transfer_id)),
        }
    }

    /// Ends an upload and hands it back, so that its file is closed and moved into place.
    pub fn finish_upload(&mut self, transfer_id: &str) -> (r: Result<Upload<F>, AgentException>)
        requires
            old(self).wf(),
        ensures
            final(self).wf(),
            r is Ok <==> old(self).uploads().dom().contains(transfer_id@),
            r matches Ok(u) ==> u == old(self).uploads()[transfer_id@],
            r matches Err(e) ==> e.message@ == "Unknown upload: "@ + transfer_id@,
            final(self).uploads() == old(self).uploads().remove(transfer_id@),
            final(self).downloads() == old(self).downloads(),
            final(self).issued() == old(self).issued(),
    {
        match self.uploads.remove(transfer_id) {
            Some(u) => Ok(u),
            None => Err(error2("Unknown upload: ", transfer_id)),
        }
    }

    /// Drops an upload, if there is one under the id, and hands it back so that its
    /// temporary file is removed.
    pub fn cancel_upload(&mut self, transfer_id: &str) -> (r: Option<Upload<F>>)
        requires
            old(self).wf(),
        ensures
            final(self).wf(),
            r is Some <==> old(self).uploads().dom().contains(transfer_id@),
            r matches Some(u) ==> u == old(self).uploads()[transfer_id@],
            final(self).uploads() == old(self).uploads().remove(transfer_id@),
            final(self).downloads() == old(self).downloads(),
            final(self).issued() == old(self).issued(),
    {
        self.uploads.remove(transfer_id)
    }

    /// Starts a download of a file of `file_size` bytes read through `file`; answers the
    /// new id `dl-<n>` with the size.
    pub fn begin_download(&mut self, file: F, file_size: i64) -> (info: DownloadInfo)
        requires
            old(self).wf(),
            old(self).issued() < u64::MAX,
            file_size >= 0,
        ensures
            final(self).wf(),
            final(self).issued() == old(self).issued() + 1,
            info.transfer_id@ == session_id("dl"@, final(self).issued()),
            info.file_size == file_size,
            final(self).downloads() == old(self).downloads().insert(
                info.transfer_id@,
                Download { file, remaining: file_size },
            ),
            final(self).uploads() == old(self).uploads(),
    {
        let id = self.next_id("dl");
        let key = id.clone();
        self.downloads.insert(key, Download { file, remaining: file_size });
        DownloadInfo { transfer_id: id, file_size }
    }

    /// For the next chunk of a download: the file to read, and how many bytes to read,
    /// the chunk size or what is left, whichever is less.
    pub fn download_chunk(&self, transfer_id: &str, chunk_size: i32) -> (r: Result<(&F, usize), AgentException>)
        requires
            self.wf(),
            chunk_size >= 0 || !self.downloads().dom().contains(transfer_id@),
        ensures
            r is Ok <==> self.downloads().dom().contains(transfer_id@),
            r matches Ok(p) ==> *p.0 == self.downloads()[transfer_id@].file
                && p.1 as int == chunk_len(chunk_size as int, self.downloads()[transfer_id@].remaining as int),
            r matches Err(e) ==> e.message@ == "Unknown download: "@ + transfer_id@,
    {
        match self.downloads.get(transfer_id) {
            Some(d) => {
                let n: i64 = if (chunk_size as i64) <= d.remaining { chunk_size as i64 } else { d.remaining };
                assert(n <= usize::MAX) by {
                    assert(n <= chunk_size);
                }
                Ok((&d.file, n as usize))
            },
            None => Err(error2("Unknown download: ", transfer_id)),
        }
    }

    /// Records that `n` bytes of a download were sent.
    pub fn record_sent(&mut self, transfer_id: &str, n: usize)
        requires
            old(self).wf(),
            old(self).downloads().dom().contains(transfer_id@),
            n <= old(self).downloads()[transfer_id@].remaining,
        ensures
            final(self).wf(),
            final(self).downloads() == old(self).downloads().insert(
                transfer_id@,
                Download {
                    file: old(self).downloads()[transfer_id@].file,
                    remaining: (old(self).downloads()[transfer_id@].remaining - n) as i64,
                },
            ),
            final(self).uploads() == old(self).uploads(),
            final(self).issued() == old(self).issued(),
    {
        let d = self.downloads.remove(transfer_id);
        match d {
            Some(d) => {
                let ghost m = old(self).downloads();
                assert(m.remove(transfer_id@).insert(transfer_id@, Download { file: d.file, remaining: (d.remaining - n) as i64 })
                    =~= m.insert(transfer_id@, Download { file: d.file, remaining: (d.remaining - n) as i64 }));
                self.downloads.insert(String::from_str(transfer_id), Download { file: d.file, remaining: d.remaining - n as i64 });
            },
            None => {},
        }
    }

    /// Ends a download, if there is one under the id, and hands it back so its file is closed.
    pub fn finish_download(&mut self, transfer_id: &str) -> (r: Option<Download<F>>)
        requires
            old(self).wf(),
        ensures
            final(self).wf(),
            r is Some <==> old(self).downloads().dom().contains(transfer_id@),
            r matches Some(d) ==> d == old(self).downloads()[transfer_id@],
            final(self).downloads() == old(self).downloads().remove(transfer_id@),
            final(self).uploads() == old(self).uploads(),
            final(self).issued() == old(self).issued(),
    {
        self.downloads.remove(transfer_id)
    }
}

} // verus!
