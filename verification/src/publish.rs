//! What the daemon sends its clients, and when.

use vstd::prelude::*;

use crate::collections::StrMap;
use crate::model::{AgentPane, CheckSummary, GitStatus, PrSummary};
use crate::paths;
use crate::snapshot::SidebarSnapshot;
use crate::text;

verus! {

// ── The socket ──────────────────────────────────────────────────

/// The FNV-1a hash of the first `n` bytes.
pub open spec fn fnv1a(bytes: Seq<u8>, n: int) -> u64
    decreases n,
{
    if n <= 0 {
        0xcbf29ce484222325
    } else {
        (((fnv1a(bytes, n - 1) ^ (bytes[n - 1] as u64)) * 0x100000001b3) % 0x1_0000_0000_0000_0000) as u64
    }
}

fn instance_key(instance_id: &str) -> (r: u64)
    ensures
        r == fnv1a(vstd::utf8::encode_utf8(instance_id@), vstd::utf8::encode_utf8(instance_id@).len() as int),
{
    let bytes = instance_id.as_bytes();
    let n: usize = bytes.len();
    let mut key: u64 = 0xcbf29ce484222325;
    let mut i: usize = 0;
    while i < n
        invariant
            n == bytes@.len(),
            i <= n,
            key == fnv1a(bytes@, i as int),
        decreases n - i,
    {
        let mixed: u64 = key ^ (bytes[i] as u64);
        let wide: u128 = mixed as u128 * 0x100000001b3;
        key = (wide % 0x1_0000_0000_0000_0000) as u64;
        i += 1;
    }
    key
}

/// The hexadecimal digit `d`.
pub open spec fn hex_digit(d: int) -> char {
    if d < 10 {
        (48 + d) as char
    } else {
        (87 + d) as char
    }
}

/// The last `n` hexadecimal digits of a number.
pub open spec fn hex(key: int, n: int) -> Seq<char>
    decreases n,
{
    if n <= 0 {
        seq![]
    } else {
        hex(key / 16, n - 1).push(hex_digit(key % 16))
    }
}

fn hex_char(d: u64) -> (r: char)
    requires
        d < 16,
    ensures
        r == hex_digit(d as int),
{
    match d {
        0 => '0',
        1 => '1',
        2 => '2',
        3 => '3',
        4 => '4',
        5 => '5',
        6 => '6',
        7 => '7',
        8 => '8',
        9 => '9',
        10 => 'a',
        11 => 'b',
        12 => 'c',
        13 => 'd',
        14 => 'e',
        _ => 'f',
    }
}

fn push_hex(out: &mut String, key: u64, n: u8)
    ensures
        final(out)@ == old(out)@ + hex(key as int, n as int),
    decreases n,
{
    if n > 0 {
        push_hex(out, key / 16, n - 1);
        out.push(hex_char(key % 16));
    }
    proof {
        assert(out@ =~= old(out)@ + hex(key as int, n as int));
    }
}

/// The name of the socket of a multiplexer instance. Its length does not depend on that of the
/// instance's id.
pub open spec fn socket_name(instance_id: Seq<char>) -> Seq<char> {
    let bytes = vstd::utf8::encode_utf8(instance_id);
    "workmux-sidebar-"@ + hex(fnv1a(bytes, bytes.len() as int) as int, 16) + ".sock"@
}

/// Finds the socket of a multiplexer instance, in the directory for temporary files.
pub fn socket_path(temp_dir: &str, instance_id: &str) -> (r: String)
    ensures
        r@ == paths::joined(temp_dir@, socket_name(instance_id@)),
{
    let mut name = "workmux-sidebar-".to_owned();
    push_hex(&mut name, instance_key(instance_id), 16);
    name.append(".sock");
    proof {
        assert(name@ =~= socket_name(instance_id@));
    }
    paths::join(temp_dir, name.as_str())
}

proof fn lemma_hex_len(key: int, n: int)
    requires
        0 <= n,
    ensures
        hex(key, n).len() == n,
    decreases n,
{
    if n > 0 {
        lemma_hex_len(key / 16, n - 1);
    }
}

/// Socket names are all equally long, however long the instance's id.
pub proof fn law_socket_names_have_one_length(instance_id: Seq<char>)
    ensures
        socket_name(instance_id).len() == 37,
{
    reveal_strlit("workmux-sidebar-");
    reveal_strlit(".sock");
    let bytes = vstd::utf8::encode_utf8(instance_id);
    lemma_hex_len(fnv1a(bytes, bytes.len() as int) as int, 16);
}

// ── Sameness ────────────────────────────────────────────────────

/// A value that can be told from others of its kind.
pub trait Alike {
    spec fn alike(&self, other: &Self) -> bool;

    fn is_like(&self, other: &Self) -> (r: bool)
        ensures
            r == self.alike(other),
    ;
}

impl Alike for usize {
    open spec fn alike(&self, other: &Self) -> bool {
        *self == *other
    }

    fn is_like(&self, other: &Self) -> (r: bool) {
        *self == *other
    }
}

/// Git statuses are alike where a sidebar shows the same, whenever they were computed.
impl Alike for GitStatus {
    open spec fn alike(&self, other: &Self) -> bool {
        &&& self.ahead == other.ahead
        &&& self.behind == other.behind
        &&& self.has_conflict == other.has_conflict
        &&& self.is_dirty == other.is_dirty
        &&& self.lines_added == other.lines_added
        &&& self.lines_removed == other.lines_removed
        &&& self.uncommitted_added == other.uncommitted_added
        &&& self.uncommitted_removed == other.uncommitted_removed
        &&& self.base_branch@ == other.base_branch@
        &&& text::optional(self.branch) == text::optional(other.branch)
        &&& self.has_upstream == other.has_upstream
        &&& self.is_rebasing == other.is_rebasing
    }

    fn is_like(&self, other: &Self) -> (r: bool) {
        git_status_semantically_equal(self, other)
    }
}

/// Whether two git statuses show the same, whenever they were computed.
pub fn git_status_semantically_equal(a: &GitStatus, b: &GitStatus) -> (r: bool)
    ensures
        r == a.alike(b),
{
    a.ahead == b.ahead && a.behind == b.behind && a.has_conflict == b.has_conflict && a.is_dirty == b.is_dirty
        && a.lines_added == b.lines_added && a.lines_removed == b.lines_removed && a.uncommitted_added
        == b.uncommitted_added && a.uncommitted_removed == b.uncommitted_removed && text::same(
        a.base_branch.as_str(),
        b.base_branch.as_str(),
    ) && text::same_optional(&a.branch, &b.branch) && a.has_upstream == b.has_upstream && a.is_rebasing
        == b.is_rebasing
}

impl Alike for PrSummary {
    open spec fn alike(&self, other: &Self) -> bool {
        &&& self.number == other.number
        &&& self.title@ == other.title@
        &&& self.state@ == other.state@
        &&& self.is_draft == other.is_draft
        &&& self.checks == other.checks
        &&& text::optional(self.check_meta) == text::optional(other.check_meta)
        &&& text::optional(self.url) == text::optional(other.url)
    }

    fn is_like(&self, other: &Self) -> (r: bool) {
        self.number == other.number && text::same(self.title.as_str(), other.title.as_str()) && text::same(
            self.state.as_str(),
            other.state.as_str(),
        ) && self.is_draft == other.is_draft && self.checks == other.checks && text::same_optional(
            &self.check_meta,
            &other.check_meta,
        ) && text::same_optional(&self.url, &other.url)
    }
}

impl Alike for CheckSummary {
    open spec fn alike(&self, other: &Self) -> bool {
        self.state == other.state && text::optional(self.meta) == text::optional(other.meta)
    }

    fn is_like(&self, other: &Self) -> (r: bool) {
        self.state == other.state && text::same_optional(&self.meta, &other.meta)
    }
}

impl Alike for AgentPane {
    open spec fn alike(&self, other: &Self) -> bool {
        &&& self.session@ == other.session@
        &&& self.window_name@ == other.window_name@
        &&& self.pane_id@ == other.pane_id@
        &&& self.window_id@ == other.window_id@
        &&& self.window_index == other.window_index
        &&& self.path@ == other.path@
        &&& self.project@ == other.project@
        &&& text::optional(self.pane_title) == text::optional(other.pane_title)
        &&& self.status == other.status
        &&& self.status_ts == other.status_ts
        &&& self.activity_ts == other.activity_ts
        &&& self.updated_ts == other.updated_ts
        &&& text::optional(self.window_cmd) == text::optional(other.window_cmd)
        &&& text::optional(self.agent_command) == text::optional(other.agent_command)
        &&& text::optional(self.agent_kind) == text::optional(other.agent_kind)
    }

    fn is_like(&self, other: &Self) -> (r: bool) {
        text::same(self.session.as_str(), other.session.as_str()) && text::same(
            self.window_name.as_str(),
            other.window_name.as_str(),
        ) && text::same(self.pane_id.as_str(), other.pane_id.as_str()) && text::same(
            self.window_id.as_str(),
            other.window_id.as_str(),
        ) && self.window_index == other.window_index && text::same(self.path.as_str(), other.path.as_str())
            && text::same(self.project.as_str(), other.project.as_str()) && text::same_optional(
            &self.pane_title,
            &other.pane_title,
        ) && self.status == other.status && self.status_ts == other.status_ts && self.activity_ts
            == other.activity_ts && self.updated_ts == other.updated_ts && text::same_optional(
            &self.window_cmd,
            &other.window_cmd,
        ) && text::same_optional(&self.agent_command, &other.agent_command) && text::same_optional(
            &self.agent_kind,
            &other.agent_kind,
        )
    }
}

/// Whether two maps have the same keys with like values.
pub open spec fn maps_alike<V: Alike>(a: Map<Seq<char>, V>, b: Map<Seq<char>, V>) -> bool {
    a.dom() == b.dom() && forall|k: Seq<char>| #[trigger] a.dom().contains(k) ==> a[k].alike(&b[k])
}

pub fn same_maps<V: Alike>(a: &StrMap<V>, b: &StrMap<V>) -> (r: bool)
    ensures
        r == maps_alike(a@, b@),
{
    let n: usize = a.len();
    let mut i: usize = 0;
    while i < n
        invariant
            n == a.keys().len(),
            i <= n,
            forall|j: int|
                0 <= j < i ==> b@.dom().contains(#[trigger] a.keys()[j]) && a@[a.keys()[j]].alike(&b@[a.keys()[j]]),
        decreases n - i,
    {
        match b.get(a.key_at(i).as_str()) {
            Some(other) => {
                if !a.value_at(i).is_like(other) {
                    return false;
                }
            },
            None => return false,
        }
        i += 1;
    }
    let m: usize = b.len();
    let mut k: usize = 0;
    while k < m
        invariant
            m == b.keys().len(),
            k <= m,
            forall|j: int| 0 <= j < k ==> a@.dom().contains(#[trigger] b.keys()[j]),
        decreases m - k,
    {
        if !a.contains_key(b.key_at(k).as_str()) {
            return false;
        }
        k += 1;
    }
    proof {
        a.lemma_keys();
        b.lemma_keys();
        assert forall|c: Seq<char>| a@.dom().contains(c) <==> b@.dom().contains(c) by {
            if a@.dom().contains(c) {
                let j = choose|j: int| 0 <= j < a.keys().len() && a.keys()[j] == c;
                assert(b@.dom().contains(a.keys()[j]));
            }
            if b@.dom().contains(c) {
                let j = choose|j: int| 0 <= j < b.keys().len() && b.keys()[j] == c;
                assert(a@.dom().contains(b.keys()[j]));
            }
        }
        assert(a@.dom() =~= b@.dom());
        assert forall|c: Seq<char>| #[trigger] a@.dom().contains(c) implies a@[c].alike(&b@[c]) by {
            let j = choose|j: int| 0 <= j < a.keys().len() && a.keys()[j] == c;
            assert(a@[a.keys()[j]].alike(&b@[a.keys()[j]]));
        }
    }
    true
}

/// Whether two lists hold like values in the same order.
pub open spec fn lists_alike<V: Alike>(a: Seq<V>, b: Seq<V>) -> bool {
    a.len() == b.len() && forall|i: int| 0 <= i < a.len() ==> (#[trigger] a[i]).alike(&b[i])
}

pub fn same_lists<V: Alike>(a: &Vec<V>, b: &Vec<V>) -> (r: bool)
    ensures
        r == lists_alike(a@, b@),
{
    if a.len() != b.len() {
        return false;
    }
    let mut i: usize = 0;
    while i < a.len()
        invariant
            a@.len() == b@.len(),
            i <= a@.len(),
            forall|j: int| 0 <= j < i ==> (#[trigger] a@[j]).alike(&b@[j]),
        decreases a.len() - i,
    {
        if !a[i].is_like(&b[i]) {
            return false;
        }
        i += 1;
    }
    true
}

/// Whether two snapshots show the same.
pub open spec fn snapshots_alike(a: SidebarSnapshot, b: SidebarSnapshot) -> bool {
    &&& a.position == b.position
    &&& a.layout_mode == b.layout_mode
    &&& a.filter_mode == b.filter_mode
    &&& a.active_windows@ == b.active_windows@
    &&& a.active_pane_ids@ == b.active_pane_ids@
    &&& maps_alike(a.window_pane_counts@, b.window_pane_counts@)
    &&& maps_alike(a.git_statuses@, b.git_statuses@)
    &&& maps_alike(a.pr_statuses@, b.pr_statuses@)
    &&& maps_alike(a.check_statuses@, b.check_statuses@)
    &&& a.interrupted_pane_ids@ == b.interrupted_pane_ids@
    &&& a.sleeping_pane_ids@ == b.sleeping_pane_ids@
    &&& a.group_by == b.group_by
    &&& text::texts(a.expanded_groups@) == text::texts(b.expanded_groups@)
    &&& a.stale_pane_ids@ == b.stale_pane_ids@
    &&& a.collapse_stale == b.collapse_stale
    &&& lists_alike(a.agents@, b.agents@)
    &&& a.config_version == b.config_version
}

pub fn snapshots_equal(left: &SidebarSnapshot, right: &SidebarSnapshot) -> (r: bool)
    ensures
        r == snapshots_alike(*left, *right),
{
    left.position == right.position && left.layout_mode == right.layout_mode && left.filter_mode == right.filter_mode
        && left.active_windows.same(&right.active_windows) && left.active_pane_ids.same(&right.active_pane_ids)
        && same_maps(&left.window_pane_counts, &right.window_pane_counts) && same_maps(
        &left.git_statuses,
        &right.git_statuses,
    ) && same_maps(&left.pr_statuses, &right.pr_statuses) && same_maps(&left.check_statuses, &right.check_statuses)
        && left.interrupted_pane_ids.same(&right.interrupted_pane_ids) && left.sleeping_pane_ids.same(
        &right.sleeping_pane_ids,
    ) && left.group_by == right.group_by && text::same_texts(&left.expanded_groups, &right.expanded_groups)
        && left.stale_pane_ids.same(&right.stale_pane_ids) && left.collapse_stale == right.collapse_stale
        && same_lists(&left.agents, &right.agents) && left.config_version == right.config_version
}

/// When a status was computed makes no difference to a sidebar.
pub proof fn law_freshness_does_not_matter(a: GitStatus, at: Option<u64>)
    ensures
        a.alike(&(GitStatus { cached_at: at, ..a })),
{
}

// ── Sending ─────────────────────────────────────────────────────

/// The most bytes that a client takes.
pub const MAX_PAYLOAD: usize = 1_048_576;

/// The four bytes of a length, greatest first.
pub open spec fn length_bytes(n: int) -> Seq<u8> {
    seq![(n / 0x1000000 % 256) as u8, (n / 0x10000 % 256) as u8, (n / 0x100 % 256) as u8, (n % 256) as u8]
}

/// The length that four bytes give.
pub open spec fn length_of(bytes: Seq<u8>) -> int {
    bytes[0] * 0x1000000 + bytes[1] * 0x10000 + bytes[2] * 0x100 + bytes[3]
}

/// A message: its length, then its bytes.
pub open spec fn framed(data: Seq<u8>) -> Seq<u8> {
    length_bytes(data.len() as int) + data
}

/// A message can be cut out of a stream by the length in front of it.
pub proof fn law_frames_are_self_delimiting(data: Seq<u8>, rest: Seq<u8>)
    requires
        data.len() <= MAX_PAYLOAD,
    ensures
        ({
            let stream = framed(data) + rest;
            let n = length_of(stream.take(4));
            &&& n == data.len()
            &&& stream.subrange(4, 4 + n) == data
            &&& stream.skip(4 + n) == rest
        }),
{
    let stream = framed(data) + rest;
    assert(stream.take(4) =~= length_bytes(data.len() as int));
    let n = data.len() as int;
    assert(length_of(length_bytes(n)) == n);
    assert(stream.subrange(4, 4 + n) =~= data);
    assert(stream.skip(4 + n) =~= rest);
}

/// Puts the length in front of a message. One that clients would not take is refused.
pub fn frame(data: &Vec<u8>) -> (r: Option<Vec<u8>>)
    ensures
        match r {
            Some(payload) => data@.len() <= MAX_PAYLOAD && payload@ == framed(data@),
            None => data@.len() > MAX_PAYLOAD,
        },
{
    let n: usize = data.len();
    if n > MAX_PAYLOAD {
        return None;
    }
    let mut payload: Vec<u8> = Vec::new();
    payload.push((n / 0x1000000 % 256) as u8);
    payload.push((n / 0x10000 % 256) as u8);
    payload.push((n / 0x100 % 256) as u8);
    payload.push((n % 256) as u8);
    let ghost head = payload@;
    let mut i: usize = 0;
    while i < n
        invariant
            n == data@.len(),
            i <= n,
            payload@ =~= head + data@.take(i as int),
        decreases n - i,
    {
        payload.push(data[i]);
        i += 1;
    }
    proof {
        assert(head =~= length_bytes(n as int));
        assert(payload@ =~= framed(data@));
    }
    Some(payload)
}

/// What was sent last, for clients that connect later.
pub struct BroadcastCache {
    pub snapshot: Option<SidebarSnapshot>,
    pub payload: Vec<u8>,
    /// Changes whenever something is sent.
    pub generation: u64,
}

impl BroadcastCache {
    pub fn new() -> (r: Self)
        ensures
            r.snapshot is None,
            r.payload@.len() == 0,
            r.generation == 0,
    {
        BroadcastCache { snapshot: None, payload: Vec::new(), generation: 0 }
    }

    /// Whether a snapshot is news: nothing was sent yet, or it shows something else.
    pub fn is_news(&self, snapshot: &SidebarSnapshot) -> (r: bool)
        ensures
            r == !(self.snapshot matches Some(cached) && snapshots_alike(cached, *snapshot)),
    {
        match &self.snapshot {
            Some(cached) => !snapshots_equal(cached, snapshot),
            None => true,
        }
    }

    /// Takes a snapshot, with its bytes, to be sent. Returns whether to send `payload`: nothing
    /// changes where it is no news, could not be written down, or is more than clients take.
    pub fn accept(&mut self, snapshot: SidebarSnapshot, data: Option<Vec<u8>>) -> (r: bool)
        ensures
            r == (!(old(self).snapshot matches Some(cached) && snapshots_alike(cached, snapshot)) && (
            data matches Some(bytes) && bytes@.len() <= MAX_PAYLOAD)),
            !r ==> *final(self) == *old(self),
            r ==> {
                &&& final(self).snapshot == Some(snapshot)
                &&& data matches Some(bytes) && final(self).payload@ == framed(bytes@)
                &&& final(self).generation == (if old(self).generation == u64::MAX {
                    0
                } else {
                    old(self).generation + 1
                })
            },
    {
        if !self.is_news(&snapshot) {
            return false;
        }
        match data {
            Some(bytes) => match frame(&bytes) {
                Some(payload) => {
                    self.snapshot = Some(snapshot);
                    self.payload = payload;
                    self.generation = self.generation.wrapping_add(1);
                    true
                },
                None => false,
            },
            None => false,
        }
    }

    /// Whether a client that was sent the payload of `generation` is up to date.
    pub fn is_current(&self, generation: u64) -> (r: bool)
        ensures
            r == (self.generation == generation),
    {
        self.generation == generation
    }
}

// ── What counts as news ─────────────────────────────────────────

/// The hash of an instance begins with the offset basis of FNV-1a, takes in one byte after another, and
/// multiplies by its prime, modulo the word.
pub proof fn law_hashes_take_in_bytes(bytes: Seq<u8>, n: int)
    requires
        0 <= n < bytes.len(),
    ensures
        fnv1a(bytes, 0) == 0xcbf29ce484222325,
        fnv1a(bytes, n + 1) == (((fnv1a(bytes, n) ^ (bytes[n] as u64)) * 0x100000001b3) % 0x1_0000_0000_0000_0000) as u64,
        forall|other: Seq<u8>| #![trigger fnv1a(other, n)]
            other.len() >= n && other.take(n) == bytes.take(n) ==> fnv1a(other, n) == fnv1a(bytes, n),
{
    assert forall|other: Seq<u8>| #![trigger fnv1a(other, n)] other.len() >= n && other.take(n) == bytes.take(n) implies fnv1a(
        other,
        n,
    ) == fnv1a(bytes, n) by {
        lemma_fnv_prefix(bytes, other, n, n);
    }
}

proof fn lemma_fnv_prefix(a: Seq<u8>, b: Seq<u8>, n: int, k: int)
    requires
        0 <= k <= n <= a.len(),
        n <= b.len(),
        a.take(n) == b.take(n),
    ensures
        fnv1a(a, k) == fnv1a(b, k),
    decreases k,
{
    if k > 0 {
        lemma_fnv_prefix(a, b, n, k - 1);
        assert(a[k - 1] == a.take(n)[k - 1] && b[k - 1] == b.take(n)[k - 1]);
    }
}

/// Whether a number has no more than `n` hexadecimal digits.
pub open spec fn has_digits(key: int, n: int) -> bool
    decreases n,
{
    if n <= 0 {
        key == 0
    } else {
        key >= 0 && has_digits(key / 16, n - 1)
    }
}

/// Hexadecimal digits are those that everybody reads, lower case, and tell numbers apart: two numbers of
/// as many digits that are written alike are the same.
pub proof fn law_hexadecimal_tells_numbers_apart(a: int, b: int, n: int)
    requires
        has_digits(a, n),
        has_digits(b, n),
        hex(a, n) == hex(b, n),
    ensures
        a == b,
        hex_digit(0) == '0' && hex_digit(9) == '9' && hex_digit(10) == 'a' && hex_digit(15) == 'f',
    decreases n,
{
    if n > 0 {
        let x = hex(a / 16, n - 1);
        let y = hex(b / 16, n - 1);
        assert(hex(a, n) == x.push(hex_digit(a % 16)));
        assert(hex(b, n) == y.push(hex_digit(b % 16)));
        assert(x.push(hex_digit(a % 16)).last() == hex_digit(a % 16));
        assert(y.push(hex_digit(b % 16)).last() == hex_digit(b % 16));
        assert(hex(a, n).drop_last() =~= x);
        assert(hex(b, n).drop_last() =~= y);
        assert(hex(a, n).last() == hex(b, n).last());
        assert(hex_digit(a % 16) == hex_digit(b % 16));
        assert(a % 16 == b % 16);
        law_hexadecimal_tells_numbers_apart(a / 16, b / 16, n - 1);
    }
}

/// A length is sent with its greatest byte first, and its bytes make it up.
pub proof fn law_lengths_are_sent_greatest_byte_first(n: int)
    requires
        0 <= n < 0x1_0000_0000,
    ensures
        ({
            let b = length_bytes(n);
            &&& b.len() == 4
            &&& b[0] * 0x1000000 + b[1] * 0x10000 + b[2] * 0x100 + b[3] == n
        }),
        framed(Seq::<u8>::empty()).len() == 4,
{
}

/// Git statuses that differ in anything that a sidebar shows are not alike.
pub proof fn law_visible_git_changes_are_news(a: GitStatus, b: GitStatus)
    ensures
        a.alike(&b) ==> {
            &&& a.ahead == b.ahead && a.behind == b.behind
            &&& a.has_conflict == b.has_conflict && a.is_dirty == b.is_dirty && a.is_rebasing == b.is_rebasing
            &&& a.lines_added == b.lines_added && a.lines_removed == b.lines_removed
            &&& a.uncommitted_added == b.uncommitted_added && a.uncommitted_removed == b.uncommitted_removed
            &&& a.base_branch@ == b.base_branch@ && a.has_upstream == b.has_upstream
            &&& a.branch is Some <==> b.branch is Some
            &&& a.branch is Some ==> a.branch->0@ == b.branch->0@
        },
        a.alike(&a),
{
}

/// Agents, pull requests and checks are alike only where all of them agrees.
pub proof fn law_visible_agent_changes_are_news(a: AgentPane, b: AgentPane, p: PrSummary, q: PrSummary, c: CheckSummary, d: CheckSummary)
    ensures
        a.alike(&b) ==> {
            &&& a.status == b.status && a.status_ts == b.status_ts && a.activity_ts == b.activity_ts && a.updated_ts
                == b.updated_ts
            &&& a.pane_id@ == b.pane_id@ && a.window_id@ == b.window_id@ && a.window_index == b.window_index
            &&& a.session@ == b.session@ && a.window_name@ == b.window_name@ && a.path@ == b.path@ && a.project@
                == b.project@
            &&& a.pane_title is Some <==> b.pane_title is Some
            &&& a.pane_title is Some ==> a.pane_title->0@ == b.pane_title->0@
        },
        p.alike(&q) ==> p.number == q.number && p.title@ == q.title@ && p.state@ == q.state@ && p.is_draft == q.is_draft
            && p.checks == q.checks,
        c.alike(&d) ==> c.state == d.state,
        a.alike(&a) && p.alike(&p) && c.alike(&c),
{
}

/// A snapshot is no news to one who has it; one that shows anything else is.
pub proof fn law_changed_snapshots_are_news(a: SidebarSnapshot, b: SidebarSnapshot, i: int)
    ensures
        snapshots_alike(a, a),
        snapshots_alike(a, b) ==> {
            &&& a.position == b.position && a.layout_mode == b.layout_mode && a.filter_mode == b.filter_mode
            &&& a.group_by == b.group_by && a.collapse_stale == b.collapse_stale && a.config_version == b.config_version
            &&& a.active_windows@ == b.active_windows@ && a.active_pane_ids@ == b.active_pane_ids@
            &&& a.stale_pane_ids@ == b.stale_pane_ids@ && a.sleeping_pane_ids@ == b.sleeping_pane_ids@
                && a.interrupted_pane_ids@ == b.interrupted_pane_ids@
            &&& a.agents@.len() == b.agents@.len()
            &&& 0 <= i < a.agents@.len() ==> a.agents@[i].alike(&b.agents@[i])
            &&& a.git_statuses@.dom() == b.git_statuses@.dom() && a.pr_statuses@.dom() == b.pr_statuses@.dom()
                && a.check_statuses@.dom() == b.check_statuses@.dom()
            &&& a.window_pane_counts@.dom() == b.window_pane_counts@.dom()
            &&& a.expanded_groups@.len() == b.expanded_groups@.len()
            &&& 0 <= i < a.expanded_groups@.len() ==> a.expanded_groups@[i]@ == b.expanded_groups@[i]@
        },
{
    if snapshots_alike(a, b) {
        let x = text::texts(a.expanded_groups@);
        let y = text::texts(b.expanded_groups@);
        assert(x.len() == a.expanded_groups@.len() && y.len() == b.expanded_groups@.len());
        if 0 <= i < x.len() {
            assert(x[i] == a.expanded_groups@[i]@ && y[i] == b.expanded_groups@[i]@);
        }
    }
}

/// Maps are alike exactly where they have the same keys, with like values.
pub proof fn law_like_maps_have_like_values<V: Alike>(a: Map<Seq<char>, V>, b: Map<Seq<char>, V>, k: Seq<char>)
    ensures
        maps_alike(a, b) && a.dom().contains(k) ==> b.dom().contains(k) && a[k].alike(&b[k]),
        maps_alike(a, b) && b.dom().contains(k) ==> a.dom().contains(k),
        a.dom().contains(k) && b.dom().contains(k) && !a[k].alike(&b[k]) ==> !maps_alike(a, b),
{
}

} // verus!
