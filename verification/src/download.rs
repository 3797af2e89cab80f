//! Download progress: a tracker fed with the chunks of a response body, which
//! accumulates the transferred bytes and decides when a progress event is due.

use vstd::prelude::*;

verus! {

/// The least time between two intermediate progress events, in nanoseconds
/// (half a second).
pub const UPDATE_INTERVAL: u128 = 500_000_000;

/// The state of one download at a point in time.
///
/// `elapsed` is the time since the download started, in nanoseconds, at which
/// `transfered` was last updated: the average transfer rate is the quotient
/// of the two.
#[derive(Debug)]
pub struct Progress {
    pub download_id: String,
    pub filesize: u64,
    pub transfered: u64,
    pub elapsed: u128,
    pub percentage: u64,
}

pub struct ProgressView {
    pub download_id: Seq<char>,
    pub filesize: nat,
    pub transfered: nat,
    pub elapsed: nat,
    pub percentage: nat,
}

/// What the listener is sent.
#[derive(Debug)]
pub enum Event {
    Progress(Progress),
    Complete(Progress),
}

pub enum EventView {
    Progress(ProgressView),
    Complete(ProgressView),
}

/// Why a download could not be started.
#[derive(Debug, PartialEq, Eq, Structural, Clone, Copy)]
pub enum DownloadError {
    /// The response's status is not one of success.
    BadStatus,
    /// The response declares no total size.
    MissingContentLength,
}

/// One chunk of the response body: its length in bytes and the time of its
/// arrival, in nanoseconds since the download started.
#[derive(Debug, Clone, Copy)]
pub struct Chunk {
    pub len: u64,
    pub at: u128,
}

/// The tracker of one download.
#[derive(Debug)]
pub struct Download {
    pub progress: Progress,
    /// When the last intermediate progress event was emitted (0 before the first).
    pub last_update: u128,
}

pub struct DownloadView {
    pub progress: ProgressView,
    pub last_update: nat,
}

/// Bytes transferred after `len` more arrived: clamped to the declared size.
pub open spec fn advanced(transfered: nat, len: nat, filesize: nat) -> nat {
    if transfered + len <= filesize {
        transfered + len
    } else {
        filesize
    }
}

/// The truncated percentage of `filesize` that `transfered` is.
pub open spec fn percent(transfered: nat, filesize: nat) -> nat
    recommends
        filesize > 0,
{
    transfered * 100 / filesize
}

/// The truncated average rate in bytes per second.
pub open spec fn bytes_per_second(transfered: nat, elapsed: nat) -> nat {
    if elapsed == 0 {
        0
    } else {
        transfered * 1_000_000_000 / elapsed
    }
}

/// Whether `status` is one of HTTP's codes of success.
pub open spec fn is_success(status: u16) -> bool {
    200 <= status <= 299
}

/// Why a response of this status and declared size cannot be downloaded, if
/// it cannot.
pub open spec fn refusal(status: u16, content_length: Option<u64>) -> Option<DownloadError> {
    if !is_success(status) {
        Some(DownloadError::BadStatus)
    } else if content_length is None {
        Some(DownloadError::MissingContentLength)
    } else {
        None
    }
}

/// Whether an intermediate event is due at `now`, the last one having been
/// emitted at `last_update`.
pub open spec fn is_due(last_update: nat, now: nat) -> bool {
    now - last_update >= UPDATE_INTERVAL
}

/// The tracker of a download that has received nothing yet.
pub open spec fn fresh(download_id: Seq<char>, filesize: nat) -> DownloadView {
    DownloadView {
        progress: ProgressView { download_id, filesize, transfered: 0, elapsed: 0, percentage: 0 },
        last_update: 0,
    }
}

/// The progress after a chunk of `len` bytes arrived at `now`.
pub open spec fn progress_after(p: ProgressView, len: nat, now: nat) -> ProgressView {
    let transfered = advanced(p.transfered, len, p.filesize);
    ProgressView {
        download_id: p.download_id,
        filesize: p.filesize,
        transfered,
        elapsed: now,
        percentage: percent(transfered, p.filesize),
    }
}

/// The tracker after a chunk of `len` bytes arrived at `now`.
pub open spec fn after_chunk(d: DownloadView, len: nat, now: nat) -> DownloadView {
    DownloadView {
        progress: progress_after(d.progress, len, now),
        last_update: if is_due(d.last_update, now) {
            now
        } else {
            d.last_update
        },
    }
}

/// The progress that the terminal events carry.
pub open spec fn completed(p: ProgressView) -> ProgressView {
    ProgressView {
        download_id: p.download_id,
        filesize: p.filesize,
        transfered: p.filesize,
        elapsed: p.elapsed,
        percentage: 100,
    }
}

/// The tracker after all of `chunks` arrived, in their order.
pub open spec fn after_chunks(d: DownloadView, chunks: Seq<Chunk>) -> DownloadView
    decreases chunks.len(),
{
    if chunks.len() == 0 {
        d
    } else {
        let c = chunks.last();
        after_chunk(after_chunks(d, chunks.drop_last()), c.len as nat, c.at as nat)
    }
}

/// The intermediate progress events emitted while `chunks` arrived.
pub open spec fn intermediate(d: DownloadView, chunks: Seq<Chunk>) -> Seq<ProgressView>
    decreases chunks.len(),
{
    if chunks.len() == 0 {
        Seq::empty()
    } else {
        let c = chunks.last();
        let before = after_chunks(d, chunks.drop_last());
        let earlier = intermediate(d, chunks.drop_last());
        if is_due(before.last_update, c.at as nat) {
            earlier.push(progress_after(before.progress, c.len as nat, c.at as nat))
        } else {
            earlier
        }
    }
}

/// Every event of a download that received `chunks` and then ended: the
/// intermediate progress events, one last progress event, one completion.
pub open spec fn all_events(d: DownloadView, chunks: Seq<Chunk>) -> Seq<EventView> {
    let done = completed(after_chunks(d, chunks).progress);
    intermediate(d, chunks).map_values(|p: ProgressView| EventView::Progress(p)).push(
        EventView::Progress(done),
    ).push(EventView::Complete(done))
}

/// The views of a sequence of events.
pub open spec fn event_views(events: Seq<Event>) -> Seq<EventView> {
    events.map_values(|e: Event| e@)
}

impl View for Progress {
    type V = ProgressView;

    open spec fn view(&self) -> ProgressView {
        ProgressView {
            download_id: self.download_id@,
            filesize: self.filesize as nat,
            transfered: self.transfered as nat,
            elapsed: self.elapsed as nat,
            percentage: self.percentage as nat,
        }
    }
}

impl View for Event {
    type V = EventView;

    open spec fn view(&self) -> EventView {
        match self {
            Event::Progress(p) => EventView::Progress(p@),
            Event::Complete(p) => EventView::Complete(p@),
        }
    }
}

impl View for Download {
    type V = DownloadView;

    open spec fn view(&self) -> DownloadView {
        DownloadView { progress: self.progress@, last_update: self.last_update as nat }
    }
}

impl EventView {
    /// The progress that the event carries.
    pub open spec fn payload(self) -> ProgressView {
        match self {
            EventView::Progress(p) => p,
            EventView::Complete(p) => p,
        }
    }
}

impl Progress {
    /// A copy of this progress, as it is now.
    pub fn snapshot(&self) -> (copy: Progress)
        ensures
            copy@ == self@,
    {
        Progress {
            download_id: self.download_id.clone(),
            filesize: self.filesize,
            transfered: self.transfered,
            elapsed: self.elapsed,
            percentage: self.percentage,
        }
    }

    /// The progress event that carries this progress.
    pub fn emit_progress(&self) -> (event: Event)
        ensures
            event@ == EventView::Progress(self@),
    {
        Event::Progress(self.snapshot())
    }

    /// The completion event that carries this progress.
    pub fn emit_finished(&self) -> (event: Event)
        ensures
            event@ == EventView::Complete(self@),
    {
        Event::Complete(self.snapshot())
    }

    /// The average transfer rate in whole bytes per second: 0 while no time
    /// has passed, and `u64::MAX` where the quotient is larger than that.
    pub fn whole_rate(&self) -> (rate: u64)
        ensures
            rate as nat == if bytes_per_second(self@.transfered, self@.elapsed) <= u64::MAX {
                bytes_per_second(self@.transfered, self@.elapsed)
            } else {
                u64::MAX as nat
            },
    {
        if self.elapsed == 0 {
            0
        } else {
            let scaled: u128 = self.transfered as u128 * 1_000_000_000u128;
            let rate: u128 = scaled / self.elapsed;
            if rate > u64::MAX as u128 {
                u64::MAX
            } else {
                rate as u64
            }
        }
    }
}

impl Event {
    /// The name of the channel on which the event is sent.
    pub fn channel(&self) -> (name: &'static str)
        ensures
            name@ == match self@ {
                EventView::Progress(_) => "rom://download:progress"@,
                EventView::Complete(_) => "rom://download:complete"@,
            },
    {
        match self {
            Event::Progress(_) => "rom://download:progress",
            Event::Complete(_) => "rom://download:complete",
        }
    }

    /// The progress that the event carries.
    pub fn progress(&self) -> (p: &Progress)
        ensures
            p@ == self@.payload(),
    {
        match self {
            Event::Progress(p) => p,
            Event::Complete(p) => p,
        }
    }

    /// Whether this is the completion event.
    pub fn is_complete(&self) -> (b: bool)
        ensures
            b == (self@ is Complete),
    {
        match self {
            Event::Progress(_) => false,
            Event::Complete(_) => true,
        }
    }
}

/// Starts tracking the download of a response with the status code `status`
/// and the declared size `content_length`. A response without success, or
/// one that declares no size, is not downloaded.
pub fn start_download(id: String, status: u16, content_length: Option<u64>) -> (r: Result<
    Download,
    DownloadError,
>)
    ensures
        match refusal(status, content_length) {
            Some(e) => r == Err::<Download, DownloadError>(e),
            None => r is Ok && r->Ok_0.wf() && r->Ok_0@ == fresh(
                id@,
                content_length->Some_0 as nat,
            ),
        },
{
    if status < 200 || status > 299 {
        return Err(DownloadError::BadStatus);
    }
    match content_length {
        None => Err(DownloadError::MissingContentLength),
        Some(filesize) => Ok(
            Download {
                progress: Progress {
                    download_id: id,
                    filesize,
                    transfered: 0,
                    elapsed: 0,
                    percentage: 0,
                },
                last_update: 0,
            },
        ),
    }
}

impl Download {
    /// Nothing was counted beyond the declared size.
    pub open spec fn wf(&self) -> bool {
        self.progress.transfered <= self.progress.filesize
    }

    /// Takes note of a chunk of `len` bytes that arrived `now` nanoseconds
    /// after the start, and returns the progress to emit if an event is due.
    /// The declared size is above 0: a percentage of nothing is not defined.
    pub fn on_chunk(&mut self, len: u64, now: u128) -> (emit: Option<Progress>)
        requires
            old(self).progress.filesize > 0,
        ensures
            final(self).wf(),
            final(self)@ == after_chunk(old(self)@, len as nat, now as nat),
            emit is Some <==> is_due(old(self)@.last_update, now as nat),
            emit is Some ==> emit->Some_0@ == final(self)@.progress,
    {
        let filesize: u64 = self.progress.filesize;
        let before: u64 = self.progress.transfered;
        let transfered: u64 = if before <= filesize && len <= filesize - before {
            self.progress.transfered + len
        } else {
            filesize
        };
        assert(transfered as nat * 100 / filesize as nat <= 100) by (nonlinear_arith)
            requires
                transfered <= filesize,
                filesize > 0,
        ;
        let percentage: u128 = transfered as u128 * 100u128 / filesize as u128;
        self.progress.transfered = transfered;
        self.progress.percentage = percentage as u64;
        self.progress.elapsed = now;
        if now >= self.last_update && now - self.last_update >= UPDATE_INTERVAL {
            self.last_update = now;
            Some(self.progress.snapshot())
        } else {
            None
        }
    }

    /// Ends the download: the last progress event and the completion event,
    /// in the order in which they are sent.
    pub fn finish(self) -> (events: Vec<Event>)
        ensures
            event_views(events@) == seq![
                EventView::Progress(completed(self@.progress)),
                EventView::Complete(completed(self@.progress)),
            ],
    {
        let mut progress = self.progress;
        progress.transfered = progress.filesize;
        progress.percentage = 100;
        let mut events: Vec<Event> = Vec::new();
        events.push(progress.emit_progress());
        events.push(progress.emit_finished());
        assert(event_views(events@) =~= seq![
            EventView::Progress(completed(self@.progress)),
            EventView::Complete(completed(self@.progress)),
        ]);
        events
    }
}

/// The whole event stream of the download of a response with the status
/// code `status` and the declared size `content_length`, whose body arrived
/// as `chunks` and then ended. A percentage of nothing is not defined: a
/// response that declares the size 0 has no chunks.
pub fn download_events(
    id: String,
    status: u16,
    content_length: Option<u64>,
    chunks: &Vec<Chunk>,
) -> (r: Result<Vec<Event>, DownloadError>)
    requires
        content_length == Some(0u64) ==> chunks@.len() == 0,
    ensures
        match refusal(status, content_length) {
            Some(e) => r == Err::<Vec<Event>, DownloadError>(e),
            None => r is Ok && event_views(r->Ok_0@) == all_events(
                fresh(id@, content_length->Some_0 as nat),
                chunks@,
            ),
        },
{
    let ghost start = fresh(id@, content_length.unwrap_or(0) as nat);
    let mut download = match start_download(id, status, content_length) {
        Ok(download) => download,
        Err(e) => {
            return Err(e);
        },
    };
    let mut events: Vec<Event> = Vec::new();
    let mut i: usize = 0;
    assert(event_views(events@) =~= intermediate(start, chunks@.take(0)).map_values(
        |p: ProgressView| EventView::Progress(p),
    ));
    while i < chunks.len()
        invariant
            i <= chunks@.len(),
            download.progress.filesize > 0 || chunks@.len() == 0,
            download@ == after_chunks(start, chunks@.take(i as int)),
            event_views(events@) == intermediate(start, chunks@.take(i as int)).map_values(
                |p: ProgressView| EventView::Progress(p),
            ),
        decreases chunks@.len() - i,
    {
        let chunk = chunks[i];
        let ghost before = event_views(events@);
        proof {
            assert(chunks@.take(i + 1).drop_last() =~= chunks@.take(i as int));
        }
        match download.on_chunk(chunk.len, chunk.at) {
            Some(progress) => {
                events.push(Event::Progress(progress));
                assert(event_views(events@) =~= before.push(
                    EventView::Progress(download@.progress),
                ));
            },
            None => {},
        }
        i += 1;
        assert(event_views(events@) =~= intermediate(start, chunks@.take(i as int)).map_values(
            |p: ProgressView| EventView::Progress(p),
        ));
    }
    assert(chunks@.take(i as int) =~= chunks@);
    let ghost before = event_views(events@);
    let mut last = download.finish();
    let ghost after = event_views(last@);
    events.append(&mut last);
    assert(event_views(events@) =~= before + after);
    assert(event_views(events@) =~= all_events(start, chunks@));
    Ok(events)
}

/// What holds of the tracker and of the intermediate events after any chunks.
proof fn lemma_intermediate(d: DownloadView, chunks: Seq<Chunk>)
    ensures
        intermediate(d, chunks).len() <= chunks.len(),
        after_chunks(d, chunks).progress.filesize == d.progress.filesize,
        after_chunks(d, chunks).progress.download_id == d.progress.download_id,
        d.progress.transfered <= d.progress.filesize ==> d.progress.transfered <= after_chunks(
            d,
            chunks,
        ).progress.transfered <= d.progress.filesize,
        after_chunks(d, chunks).last_update == if intermediate(d, chunks).len() == 0 {
            d.last_update
        } else {
            intermediate(d, chunks).last().elapsed
        },
        forall|k: int|
            0 <= k < intermediate(d, chunks).len() ==> {
                let p = #[trigger] intermediate(d, chunks)[k];
                &&& p.filesize == d.progress.filesize
                &&& p.download_id == d.progress.download_id
                &&& p.percentage == percent(p.transfered, p.filesize)
                &&& p.elapsed - d.last_update >= (k + 1) * UPDATE_INTERVAL
                &&& d.progress.transfered <= d.progress.filesize ==> d.progress.transfered
                    <= p.transfered <= after_chunks(d, chunks).progress.transfered
            },
        forall|a: int, b: int|
            0 <= a <= b < intermediate(d, chunks).len() ==> {
                let p = #[trigger] intermediate(d, chunks)[a];
                let q = #[trigger] intermediate(d, chunks)[b];
                &&& q.elapsed - p.elapsed >= (b - a) * UPDATE_INTERVAL
                &&& d.progress.transfered <= d.progress.filesize ==> p.transfered <= q.transfered
            },
    decreases chunks.len(),
{
    if chunks.len() > 0 {
        lemma_intermediate(d, chunks.drop_last());
    }
}

/// However the body arrived, the stream ends with one progress event and
/// then one completion event, both with everything transferred and at 100
/// percent, and no completion event comes before.
pub proof fn lemma_stream_ends_complete(d: DownloadView, chunks: Seq<Chunk>)
    ensures
        ({
            let events = all_events(d, chunks);
            let n = events.len() as int;
            &&& n == intermediate(d, chunks).len() + 2
            &&& events[n - 1] is Complete
            &&& events[n - 1].payload() == events[n - 2].payload()
            &&& events[n - 1].payload().download_id == d.progress.download_id
            &&& events[n - 1].payload().filesize == d.progress.filesize
            &&& events[n - 1].payload().transfered == d.progress.filesize
            &&& events[n - 1].payload().percentage == 100
            &&& forall|i: int| 0 <= i < n - 1 ==> #[trigger] events[i] is Progress
        }),
{
    lemma_intermediate(d, chunks);
}

/// The transferred bytes never decrease from one event of a download to the
/// next, and never exceed the declared size, whatever the chunks' lengths.
pub proof fn lemma_transfered_monotone(d: DownloadView, chunks: Seq<Chunk>)
    requires
        d.progress.transfered <= d.progress.filesize,
    ensures
        forall|i: int, j: int|
            0 <= i <= j < all_events(d, chunks).len() ==> {
                let p = (#[trigger] all_events(d, chunks)[i]).payload();
                let q = (#[trigger] all_events(d, chunks)[j]).payload();
                d.progress.transfered <= p.transfered <= q.transfered <= d.progress.filesize
            },
{
    lemma_intermediate(d, chunks);
    lemma_stream_ends_complete(d, chunks);
}

/// Intermediate progress events are at least the update interval apart: the
/// first that long after the tracker's last update, each later one that long
/// after the one before it.
pub proof fn lemma_events_spaced(d: DownloadView, chunks: Seq<Chunk>)
    ensures
        forall|k: int|
            0 <= k < all_events(d, chunks).len() - 2 ==> (#[trigger] all_events(
                d,
                chunks,
            )[k]).payload().elapsed - d.last_update >= (k + 1) * UPDATE_INTERVAL,
        forall|a: int, b: int|
            0 <= a <= b < all_events(d, chunks).len() - 2 ==> (#[trigger] all_events(
                d,
                chunks,
            )[b]).payload().elapsed - (#[trigger] all_events(d, chunks)[a]).payload().elapsed >= (b
                - a) * UPDATE_INTERVAL,
{
    lemma_intermediate(d, chunks);
}

/// Every event of a download carries the download's identifier and declared
/// size. Events come only where a chunk arrived, so there are at most as many
/// intermediate ones as chunks, and each of them carries the truncated
/// percentage of the bytes that it reports.
pub proof fn lemma_events_consistent(d: DownloadView, chunks: Seq<Chunk>)
    ensures
        all_events(d, chunks).len() <= chunks.len() + 2,
        forall|i: int|
            0 <= i < all_events(d, chunks).len() ==> {
                let p = (#[trigger] all_events(d, chunks)[i]).payload();
                &&& p.download_id == d.progress.download_id
                &&& p.filesize == d.progress.filesize
                &&& i < all_events(d, chunks).len() - 2 ==> p.percentage == percent(
                    p.transfered,
                    p.filesize,
                )
            },
{
    lemma_intermediate(d, chunks);
    lemma_stream_ends_complete(d, chunks);
}

} // verus!
