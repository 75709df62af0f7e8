//! Finding the input frames of a video: matching file names against a template that holds a
//! `{frame_nr}` marker, reading frame numbers, and grouping consecutive frames into the groups
//! a pattern processes together.
use vstd::prelude::*;

use crate::regex_match::{
    capture_group, compile, digits_between, digits_pattern, escape, regex_compiles, CompiledRegex,
};
use crate::frame_number::{frame_number, parse_frame_number};
use crate::text::{is_ascii_digit, str_eq};

verus! {

/// Why the input frames could not be collected.
pub enum FrameError {
    /// The last frame to process comes before the first one.
    EndBeforeStart { frame_start: u64, frame_end: u64 },
    /// The input template has no file name component.
    MissingFileName,
    /// The file name of the input template has no `{frame_nr}` marker.
    MissingMarker,
    /// The regular expression built from the template was refused by the regex engine.
    InvalidPattern,
    /// The digits found in the file name of entry `entry` do not form a frame number that
    /// fits in a `u64`.
    UnparsableFrameNumber { entry: usize, digits: String },
    /// Entries `first` and `second` are both files for the same frame.
    DuplicateFrame { first: usize, second: usize },
    /// Frame `frame_nr` has no file, while a later frame has one.
    MissingFrame { frame_nr: u64 },
}

/// `FrameError` with its text taken by its characters.
pub enum FrameErrorModel {
    EndBeforeStart { frame_start: u64, frame_end: u64 },
    MissingFileName,
    MissingMarker,
    InvalidPattern,
    UnparsableFrameNumber { entry: usize, digits: Seq<char> },
    DuplicateFrame { first: usize, second: usize },
    MissingFrame { frame_nr: u64 },
}

impl View for FrameError {
    type V = FrameErrorModel;

    open spec fn view(&self) -> FrameErrorModel {
        match self {
            FrameError::EndBeforeStart { frame_start, frame_end } => FrameErrorModel::EndBeforeStart {
                frame_start: *frame_start,
                frame_end: *frame_end,
            },
            FrameError::MissingFileName => FrameErrorModel::MissingFileName,
            FrameError::MissingMarker => FrameErrorModel::MissingMarker,
            FrameError::InvalidPattern => FrameErrorModel::InvalidPattern,
            FrameError::UnparsableFrameNumber { entry, digits } => FrameErrorModel::UnparsableFrameNumber {
                entry: *entry,
                digits: digits@,
            },
            FrameError::DuplicateFrame { first, second } => FrameErrorModel::DuplicateFrame {
                first: *first,
                second: *second,
            },
            FrameError::MissingFrame { frame_nr } => FrameErrorModel::MissingFrame {
                frame_nr: *frame_nr,
            },
        }
    }
}

/// The text of an optional string.
pub open spec fn opt_str_view(s: Option<&str>) -> Option<Seq<char>> {
    match s {
        Some(s) => Some(s@),
        None => None,
    }
}

/// The text of an optional owned string.
pub open spec fn opt_string_view(s: Option<String>) -> Option<Seq<char>> {
    match s {
        Some(s) => Some(s@),
        None => None,
    }
}

/// The marker that stands for the frame number in the input template.
pub open spec fn frame_marker() -> Seq<char> {
    "{frame_nr}"@
}

/// The marker starts at position `i` of `name`.
pub open spec fn marker_at(name: Seq<char>, i: int) -> bool {
    0 <= i && i + frame_marker().len() <= name.len() && name.subrange(i, i + frame_marker().len())
        == frame_marker()
}

/// The first position, at `i` or after, where the marker starts in `name`.
pub open spec fn find_marker_from(name: Seq<char>, i: nat) -> Option<nat>
    decreases name.len() - i,
{
    if i >= name.len() {
        None
    } else if marker_at(name, i as int) {
        Some(i)
    } else {
        find_marker_from(name, i + 1)
    }
}

/// The regular expression that picks the frame number out of a file name: anchored at both
/// ends, the template's text before the marker and after it, both taken literally, around a
/// capture of one or more digits.
pub open spec fn frame_regex_source(name: Seq<char>, pos: nat) -> Seq<char> {
    digits_pattern(name.take(pos as int), name.skip((pos + frame_marker().len()) as int))
}

/// The text of a template's file name before its first marker.
pub open spec fn template_prefix(name: Seq<char>) -> Seq<char> {
    name.take(find_marker_from(name, 0)->0 as int)
}

/// The text of a template's file name after its first marker.
pub open spec fn template_suffix(name: Seq<char>) -> Seq<char> {
    name.skip(find_marker_from(name, 0)->0 + frame_marker().len() as int)
}

/// The digits that stand for the frame number in `file`, for the template file name
/// `template`: `Some` exactly when `file` is the template's text before the marker, one or
/// more ASCII digits, then the template's text after the marker.
pub open spec fn frame_digits_of(template: Seq<char>, file: Seq<char>) -> Option<Seq<char>> {
    digits_between(template_prefix(template), template_suffix(template), file)
}

/// The regular expression that a template's file name gives, or why it gives none.
pub open spec fn template_regex(file_name: Option<Seq<char>>) -> Result<Seq<char>, FrameErrorModel> {
    match file_name {
        None => Err(FrameErrorModel::MissingFileName),
        Some(name) => match find_marker_from(name, 0) {
            None => Err(FrameErrorModel::MissingMarker),
            Some(pos) => {
                let source = frame_regex_source(name, pos);
                if regex_compiles(source) {
                    Ok(source)
                } else {
                    Err(FrameErrorModel::InvalidPattern)
                }
            },
        },
    }
}

/// Finds the first position of the `{frame_nr}` marker in `name`.
pub fn find_marker(name: &str) -> (res: Option<usize>)
    ensures
        match (res, find_marker_from(name@, 0)) {
            (Some(i), Some(j)) => i == j,
            (None, None) => true,
            _ => false,
        },
{
    let marker = "{frame_nr}";
    let m = marker.unicode_len();
    let n = name.unicode_len();
    let mut i: usize = 0;
    while i < n
        invariant
            n == name@.len(),
            m == marker@.len(),
            marker@ == frame_marker(),
            i <= n,
            find_marker_from(name@, 0) == find_marker_from(name@, i as nat),
        decreases n - i,
    {
        if m <= n - i {
            let candidate = name.substring_char(i, i + m);
            if str_eq(candidate, marker) {
                return Some(i);
            }
        }
        i = i + 1;
    }
    None
}

/// The input template: the regular expression that recognises frame files and picks out their
/// frame numbers.
pub struct FrameTemplate {
    regex: CompiledRegex,
    name: Ghost<Seq<char>>,
}

impl FrameTemplate {
    /// The regular expression the template matches file names with.
    pub closed spec fn source(&self) -> Seq<char> {
        self.regex.source()
    }

    /// The template's file name.
    pub closed spec fn template_name(&self) -> Seq<char> {
        self.name@
    }

    /// The regular expression is the one the file name gives.
    #[verifier::type_invariant]
    spec fn built_from_name(&self) -> bool {
        &&& find_marker_from(self.name@, 0) is Some
        &&& self.regex.source() == frame_regex_source(self.name@, find_marker_from(self.name@, 0)->0)
    }

    /// Builds the template from the file name part of the input template path.  The file name
    /// must hold a `{frame_nr}` marker; the text around it is matched literally, and the marker
    /// matches one or more digits.
    pub fn new(file_name: Option<&str>) -> (res: Result<FrameTemplate, FrameError>)
        ensures
            match (res, template_regex(opt_str_view(file_name))) {
                (Ok(t), Ok(source)) => t.source() == source && t.template_name() == opt_str_view(
                    file_name,
                )->0,
                (Err(e), Err(m)) => e@ == m,
                _ => false,
            },
    {
        let name = match file_name {
            None => {
                return Err(FrameError::MissingFileName);
            },
            Some(name) => name,
        };
        let pos = match find_marker(name) {
            None => {
                return Err(FrameError::MissingMarker);
            },
            Some(pos) => pos,
        };
        let marker = "{frame_nr}";
        let m = marker.unicode_len();
        let n = name.unicode_len();
        proof {
            assert(marker_at(name@, pos as int)) by {
                lemma_find_marker_found(name@, 0);
            }
        }
        let prefix = name.substring_char(0, pos);
        let suffix = name.substring_char(pos + m, n);
        let mut source = String::from_str("^");
        let escaped_prefix = escape(prefix);
        source.append(escaped_prefix.as_str());
        source.append("([[:digit:]]+)");
        let escaped_suffix = escape(suffix);
        source.append(escaped_suffix.as_str());
        source.append("$");
        proof {
            assert(prefix@ == name@.take(pos as int));
            assert(suffix@ == name@.skip((pos + frame_marker().len()) as int));
        }
        match compile(source.as_str()) {
            None => Err(FrameError::InvalidPattern),
            Some(regex) => Ok(FrameTemplate { regex, name: Ghost(name@) }),
        }
    }

    /// The digits standing for the frame number in the file name `file_name`, when the whole
    /// name is the template's text before the marker, one or more ASCII digits, then the
    /// template's text after the marker.
    pub fn frame_digits(&self, file_name: &str) -> (res: Option<String>)
        ensures
            opt_string_view(res) == frame_digits_of(self.template_name(), file_name@),
    {
        proof {
            use_type_invariant(self);
            assert(self.regex.source() == digits_pattern(
                template_prefix(self.name@),
                template_suffix(self.name@),
            ));
        }
        capture_group(&self.regex, file_name, 1)
    }
}

/// A file is a frame exactly when its name is the template's text before the marker, one or
/// more ASCII digits, then the template's text after the marker; its frame digits are then
/// the digits in between.
pub proof fn lemma_frame_file_names(template: Seq<char>, file: Seq<char>, digits: Seq<char>)
    ensures
        (frame_digits_of(template, file) == Some(digits)) <==> ({
            &&& file == template_prefix(template) + digits + template_suffix(template)
            &&& digits.len() > 0
            &&& forall|i: int| 0 <= i < digits.len() ==> is_ascii_digit(#[trigger] digits[i])
        }),
{
    let p = template_prefix(template);
    let q = template_suffix(template);
    let a = p.len() as int;
    let b = file.len() - q.len();
    if frame_digits_of(template, file) == Some(digits) {
        assert(digits == file.subrange(a, b));
        assert(file =~= p + digits + q) by {
            assert(file.take(a) == p);
            assert(file.skip(b) == q);
        }
        assert forall|i: int| 0 <= i < digits.len() implies is_ascii_digit(#[trigger] digits[i]) by {
            assert(digits[i] == file[a + i]);
        }
    }
    if file == p + digits + q && digits.len() > 0 && forall|i: int|
        0 <= i < digits.len() ==> is_ascii_digit(#[trigger] digits[i]) {
        assert(file.take(a) =~= p);
        assert(file.skip(b) =~= q);
        assert(file.subrange(a, b) =~= digits);
        assert forall|i: int| a <= i < b implies is_ascii_digit(#[trigger] file[i]) by {
            assert(file[i] == digits[i - a]);
        }
    }
}

/// Scanning from `i` finds the marker at `k` when it starts there and nowhere from `i` on
/// before it.
proof fn lemma_find_marker_first(name: Seq<char>, i: nat, k: nat)
    requires
        i <= k,
        marker_at(name, k as int),
        forall|j: int| i <= j < k ==> !marker_at(name, j),
    ensures
        find_marker_from(name, i) == Some(k),
    decreases k - i,
{
    reveal_strlit("{frame_nr}");
    assert(k < name.len());
    if i < k {
        lemma_find_marker_first(name, i + 1, k);
    }
}

/// For a template file name made of `pre`, the `{frame_nr}` marker and `suf`, where `pre`
/// holds no marker: the text before the marker is all of `pre`, the text after it is `suf`,
/// and a file is a frame with digits `d` exactly when its name is `pre`, then `d` (one or
/// more ASCII digits), then `suf`.
pub proof fn lemma_template_parts(pre: Seq<char>, suf: Seq<char>, file: Seq<char>, d: Seq<char>)
    requires
        forall|i: int| 0 <= i < pre.len() ==> !marker_at(pre, i),
    ensures
        ({
            let name = pre + frame_marker() + suf;
            &&& find_marker_from(name, 0) == Some(pre.len())
            &&& template_prefix(name) == pre
            &&& template_suffix(name) == suf
            &&& (frame_digits_of(name, file) == Some(d)) <==> ({
                &&& file == pre + d + suf
                &&& d.len() > 0
                &&& forall|i: int| 0 <= i < d.len() ==> is_ascii_digit(#[trigger] d[i])
            })
        }),
{
    reveal_strlit("{frame_nr}");
    let m = frame_marker();
    let name = pre + m + suf;
    let k = pre.len();
    let ki = k as int;
    assert(name.subrange(ki, ki + m.len()) =~= m);
    assert forall|j: int| 0 <= j < k implies !marker_at(name, j) by {
        if marker_at(name, j) {
            if j + m.len() <= k {
                assert(pre.subrange(j, j + m.len()) =~= name.subrange(j, j + m.len()));
                assert(marker_at(pre, j));
            } else {
                let t = k - j;
                assert(name.subrange(j, j + m.len())[t] == name[ki]);
                assert(name[ki] == '{');
                assert(m[t] == '{');
            }
        }
    }
    lemma_find_marker_first(name, 0, k);
    assert(template_prefix(name) =~= pre);
    assert(template_suffix(name) =~= suf);
    lemma_frame_file_names(name, file, d);
}

/// A position found by `find_marker_from` is one where the marker starts.
proof fn lemma_find_marker_found(name: Seq<char>, i: nat)
    ensures
        find_marker_from(name, i) matches Some(pos) ==> marker_at(name, pos as int) && i <= pos,
    decreases name.len() - i,
{
    if i < name.len() && !marker_at(name, i as int) {
        lemma_find_marker_found(name, i + 1);
    }
}

/// The frames to process and how they are grouped: frames from `start` up to `end` (when
/// there is one), in groups of `group_size` consecutive frames.
#[derive(Clone, Copy)]
pub struct ScanParams {
    pub start: u64,
    pub end: Option<u64>,
    pub group_size: u32,
}

impl ScanParams {
    /// The parameters describe a range of frames that can be grouped.
    pub open spec fn valid(self) -> bool {
        &&& self.group_size > 0
        &&& self.end matches Some(e) ==> self.start <= e
    }

    /// Frame `n` is one of those to process.
    pub open spec fn in_range(self, n: u64) -> bool {
        &&& self.start <= n
        &&& self.end matches Some(e) ==> n <= e
    }
}

/// The frames found so far: `found` maps each frame number to the entry that holds it, `last`
/// is the largest frame found, and `total` counts the frames found.
#[verifier::ext_equal]
pub struct ScanModel {
    pub found: Map<u64, usize>,
    pub last: Option<u64>,
    pub total: nat,
}

/// The larger of the largest frame so far and `n`.
pub open spec fn later(last: Option<u64>, n: u64) -> u64 {
    match last {
        Some(l) => if l >= n {
            l
        } else {
            n
        },
        None => n,
    }
}

/// Records entry `entry`, whose file name matched with the digits `digits` (or did not match),
/// in the frames found so far.
pub open spec fn scan_step(
    p: ScanParams,
    m: ScanModel,
    entry: usize,
    digits: Option<Seq<char>>,
) -> Result<ScanModel, FrameErrorModel> {
    match digits {
        None => Ok(m),
        Some(d) => match frame_number(d) {
            None => Err(FrameErrorModel::UnparsableFrameNumber { entry, digits: d }),
            Some(n) => if !p.in_range(n) {
                Ok(m)
            } else if m.found.contains_key(n) {
                Err(FrameErrorModel::DuplicateFrame { first: m.found[n], second: entry })
            } else {
                Ok(
                    ScanModel {
                        found: m.found.insert(n, entry),
                        last: Some(later(m.last, n)),
                        total: m.total + 1,
                    },
                )
            },
        },
    }
}

/// Nothing found yet.
pub open spec fn empty_scan() -> ScanModel {
    ScanModel { found: Map::empty(), last: None, total: 0 }
}

/// Records, in order, the entries whose matched digits are `digits`: the first error stops
/// the scan.
pub open spec fn scan_entries(p: ScanParams, digits: Seq<Option<Seq<char>>>) -> Result<
    ScanModel,
    FrameErrorModel,
>
    decreases digits.len(),
{
    if digits.len() == 0 {
        Ok(empty_scan())
    } else {
        match scan_entries(p, digits.drop_last()) {
            Err(e) => Err(e),
            Ok(m) => scan_step(p, m, (digits.len() - 1) as usize, digits.last()),
        }
    }
}

/// The smallest frame from `n` up to `last` that was not found.
pub open spec fn first_missing_from(found: Map<u64, usize>, n: int, last: int) -> Option<u64>
    decreases last + 1 - n,
{
    if n > last {
        None
    } else if !found.contains_key(n as u64) {
        Some(n as u64)
    } else {
        first_missing_from(found, n + 1, last)
    }
}

/// The entries of `count` consecutive frames from `start`, in frame order.
pub open spec fn frames_in_order(found: Map<u64, usize>, start: u64, count: nat) -> Seq<usize> {
    Seq::new(count, |k: int| found[(start + k) as u64])
}

/// `s` cut into groups of `size`: every group but the last is full.
pub open spec fn chunks<A>(s: Seq<A>, size: nat) -> Seq<Seq<A>>
    decreases s.len(),
{
    if s.len() == 0 || size == 0 {
        Seq::empty()
    } else if s.len() <= size {
        seq![s]
    } else {
        seq![s.take(size as int)] + chunks(s.skip(size as int), size)
    }
}

/// The frame groups, as entry indices, and the number of frames.
#[verifier::ext_equal]
pub struct FramePlanModel {
    pub groups: Seq<Seq<usize>>,
    pub total_frames: nat,
}

/// The outcome of a finished scan: every frame from `start` up to the largest frame found must
/// have a file, and the smallest one without is reported as missing; otherwise the frames, in
/// order, cut into groups of the group size.
pub open spec fn finish_scan(p: ScanParams, m: ScanModel) -> Result<FramePlanModel, FrameErrorModel> {
    match m.last {
        None => Ok(FramePlanModel { groups: Seq::empty(), total_frames: m.total }),
        Some(last) => match first_missing_from(m.found, p.start as int, last as int) {
            Some(n) => Err(FrameErrorModel::MissingFrame { frame_nr: n }),
            None => Ok(
                FramePlanModel {
                    groups: chunks(
                        frames_in_order(m.found, p.start, (last - p.start + 1) as nat),
                        p.group_size as nat,
                    ),
                    total_frames: m.total,
                },
            ),
        },
    }
}

/// Facts every scan keeps: the found frames are in range, `last` is the largest of them, and
/// `total` is how many there are.
pub open spec fn model_wf(p: ScanParams, m: ScanModel) -> bool {
    &&& m.found.dom().finite()
    &&& m.total == m.found.dom().len()
    &&& forall|n: u64| #[trigger] m.found.contains_key(n) ==> p.in_range(n)
    &&& m.last is None ==> m.found.dom() == Set::<u64>::empty()
    &&& m.last matches Some(l) ==> m.found.contains_key(l) && forall|n: u64|
        #[trigger] m.found.contains_key(n) ==> n <= l
}

/// Recording an entry keeps the facts every scan keeps.
pub proof fn lemma_scan_step_wf(p: ScanParams, m: ScanModel, entry: usize, digits: Option<Seq<char>>)
    requires
        model_wf(p, m),
    ensures
        scan_step(p, m, entry, digits) matches Ok(m2) ==> model_wf(p, m2),
{
    if let Ok(m2) = scan_step(p, m, entry, digits) {
        if m2 != m {
            let n = frame_number(digits->0)->0;
            assert(m2.found.dom() =~= m.found.dom().insert(n));
            if m.last is None {
                assert(m.found.dom().insert(n) =~= Set::<u64>::empty().insert(n));
            }
        }
    }
}

/// The frame groups found, as indices into the list of directory entries, and how many
/// frames there are.
pub struct FramePlan {
    pub groups: Vec<Vec<usize>>,
    pub total_frames: u64,
}

impl View for FramePlan {
    type V = FramePlanModel;

    open spec fn view(&self) -> FramePlanModel {
        FramePlanModel {
            groups: self.groups@.map_values(|row: Vec<usize>| row@),
            total_frames: self.total_frames as nat,
        }
    }
}

/// A scan over directory entries in progress: the frames found so far.
pub struct FrameScan {
    params: ScanParams,
    found: std::collections::HashMap<u64, usize>,
    last: Option<u64>,
    total: u64,
}

/// Cutting the rest of a sequence from `off` gives its next group, then the groups of what
/// follows.
proof fn lemma_chunks_step(x: Seq<usize>, size: nat, off: int, len: int)
    requires
        size > 0,
        0 <= off < x.len(),
        len == if x.len() - off < size {
            x.len() - off
        } else {
            size as int
        },
    ensures
        chunks(x.skip(off), size) == seq![x.subrange(off, off + len)] + chunks(x.skip(off + len), size),
{
    let rest = x.skip(off);
    if rest.len() <= size {
        assert(rest =~= x.subrange(off, off + len));
        assert(x.skip(off + len) =~= Seq::<usize>::empty());
        assert(chunks(x.skip(off + len), size) =~= Seq::<Seq<usize>>::empty());
        assert(seq![x.subrange(off, off + len)] + Seq::<Seq<usize>>::empty() =~= seq![rest]);
    } else {
        assert(rest.take(size as int) =~= x.subrange(off, off + len));
        assert(rest.skip(size as int) =~= x.skip(off + len));
    }
}

impl FrameScan {
    /// The frames to find and their grouping.
    pub closed spec fn params(&self) -> ScanParams {
        self.params
    }

    /// The frames found so far.
    pub closed spec fn model(&self) -> ScanModel {
        ScanModel { found: self.found@, last: self.last, total: self.total as nat }
    }

    /// The scan's parameters are valid and its model keeps the facts every scan keeps.
    pub closed spec fn wf(&self) -> bool {
        &&& self.params.valid()
        &&& model_wf(self.params, self.model())
    }

    /// Starts a scan for the frames `start` to `end` (or onwards, without an end), grouped by
    /// `group_size`.  Refused when `end` comes before `start`.
    pub fn new(start: u64, end: Option<u64>, group_size: u32) -> (res: Result<FrameScan, FrameError>)
        requires
            group_size > 0,
        ensures
            match res {
                Ok(scan) => {
                    &&& end matches Some(e) ==> start <= e
                    &&& scan.wf()
                    &&& scan.params() == (ScanParams { start, end, group_size })
                    &&& scan.model() == empty_scan()
                },
                Err(e) => end matches Some(frame_end) && start > frame_end && e@
                    == (FrameErrorModel::EndBeforeStart { frame_start: start, frame_end }),
            },
    {
        broadcast use vstd::std_specs::hash::group_hash_axioms;

        if let Some(frame_end) = end {
            if start > frame_end {
                return Err(FrameError::EndBeforeStart { frame_start: start, frame_end });
            }
        }
        let scan = FrameScan {
            params: ScanParams { start, end, group_size },
            found: std::collections::HashMap::new(),
            last: None,
            total: 0,
        };
        assert(scan.model() =~= empty_scan());
        assert(scan.model().found.dom() =~= Set::<u64>::empty());
        Ok(scan)
    }

    /// Number of frames found so far.
    pub fn total_frames(&self) -> (res: u64)
        ensures
            res == self.model().total,
    {
        self.total
    }

    /// Records entry `entry`, whose file name matched the template with the frame digits
    /// `digits` (`None`: the name did not match).  Frames outside the range are passed over.
    /// On an error the frames found so far are left as they were.
    pub fn record(&mut self, entry: usize, digits: Option<&str>) -> (res: Result<(), FrameError>)
        requires
            old(self).wf(),
            old(self).model().total < u64::MAX,
        ensures
            final(self).wf(),
            final(self).params() == old(self).params(),
            match (res, scan_step(old(self).params(), old(self).model(), entry, opt_str_view(digits))) {
                (Ok(()), Ok(m)) => final(self).model() == m,
                (Err(e), Err(m)) => e@ == m && final(self).model() == old(self).model(),
                _ => false,
            },
    {
        broadcast use vstd::std_specs::hash::group_hash_axioms;

        proof {
            lemma_scan_step_wf(self.params, self.model(), entry, opt_str_view(digits));
        }
        let d = match digits {
            None => {
                return Ok(());
            },
            Some(d) => d,
        };
        let n = match parse_frame_number(d) {
            None => {
                return Err(FrameError::UnparsableFrameNumber { entry, digits: String::from_str(d) });
            },
            Some(n) => n,
        };
        let p = self.params;
        if n < p.start {
            return Ok(());
        }
        if let Some(frame_end) = p.end {
            if n > frame_end {
                return Ok(());
            }
        }
        match self.found.get(&n) {
            Some(first) => {
                return Err(FrameError::DuplicateFrame { first: *first, second: entry });
            },
            None => {},
        }
        self.found.insert(n, entry);
        let new_last = match self.last {
            Some(l) => if l >= n {
                l
            } else {
                n
            },
            None => n,
        };
        self.last = Some(new_last);
        self.total = self.total + 1;
        assert(self.model() =~= ScanModel {
            found: old(self).model().found.insert(n, entry),
            last: Some(later(old(self).model().last, n)),
            total: old(self).model().total + 1,
        });
        Ok(())
    }

    /// Ends the scan.  Every frame from the start up to the largest frame found must have a
    /// file; the smallest one without is reported as missing.  Otherwise the frames, in order,
    /// are cut into groups of the group size (every group but the last is full).
    pub fn finish(&self) -> (res: Result<FramePlan, FrameError>)
        requires
            self.wf(),
        ensures
            match (res, finish_scan(self.params(), self.model())) {
                (Ok(plan), Ok(m)) => plan@ == m,
                (Err(e), Err(m)) => e@ == m,
                _ => false,
            },
    {
        broadcast use vstd::std_specs::hash::group_hash_axioms;

        let p = self.params;
        let ghost found = self.model().found;
        let last = match self.last {
            None => {
                let plan = FramePlan { groups: Vec::new(), total_frames: self.total };
                assert(plan@ =~= FramePlanModel { groups: Seq::empty(), total_frames: self.model().total });
                return Ok(plan);
            },
            Some(last) => last,
        };
        let start = p.start;
        let mut n: u64 = start;
        loop
            invariant
                found == self.found@,
                self.last == Some(last),
                p == self.params,
                start == p.start,
                start <= n <= last,
                forall|k: u64| start <= k < n ==> #[trigger] found.contains_key(k),
                first_missing_from(found, start as int, last as int) == first_missing_from(
                    found,
                    n as int,
                    last as int,
                ),
            ensures
                forall|k: u64| start <= k <= last ==> #[trigger] found.contains_key(k),
                first_missing_from(found, start as int, last as int) is None,
            decreases last - n,
        {
            if !self.found.contains_key(&n) {
                return Err(FrameError::MissingFrame { frame_nr: n });
            }
            if n == last {
                assert(first_missing_from(found, last + 1, last as int) is None);
                break;
            }
            n = n + 1;
        }
        let count: u128 = (last - start) as u128 + 1;
        let size: u128 = p.group_size as u128;
        let ghost flat = frames_in_order(found, start, count as nat);
        let mut groups: Vec<Vec<usize>> = Vec::new();
        let mut off: u128 = 0;
        assert(flat.skip(0) =~= flat);
        assert(groups@.map_values(|row: Vec<usize>| row@) + chunks(flat, size as nat) =~= chunks(
            flat,
            size as nat,
        ));
        while off < count
            invariant
                found == self.found@,
                forall|k: u64| start <= k <= last ==> #[trigger] found.contains_key(k),
                count == last - start + 1,
                size == p.group_size,
                size > 0,
                flat == frames_in_order(found, start, count as nat),
                off <= count,
                groups@.map_values(|row: Vec<usize>| row@) + chunks(flat.skip(off as int), size as nat)
                    == chunks(flat, size as nat),
            decreases count - off,
        {
            let len: u128 = if count - off < size {
                count - off
            } else {
                size
            };
            let mut row: Vec<usize> = Vec::new();
            let mut j: u128 = 0;
            while j < len
                invariant
                    found == self.found@,
                    forall|k: u64| start <= k <= last ==> #[trigger] found.contains_key(k),
                    count == last - start + 1,
                    flat == frames_in_order(found, start, count as nat),
                    off + len <= count,
                    j <= len,
                    row@ == flat.subrange(off as int, off + j),
                decreases len - j,
            {
                let key: u64 = (start as u128 + off + j) as u64;
                match self.found.get(&key) {
                    Some(e) => {
                        row.push(*e);
                    },
                    None => {
                        assert(found.contains_key(key));
                    },
                }
                assert(row@ =~= flat.subrange(off as int, off + j + 1));
                j = j + 1;
            }
            proof {
                lemma_chunks_step(flat, size as nat, off as int, len as int);
            }
            let ghost before = groups@.map_values(|row: Vec<usize>| row@);
            let ghost row_view = row@;
            groups.push(row);
            off = off + len;
            proof {
                let after = groups@.map_values(|row: Vec<usize>| row@);
                assert(after =~= before.push(row_view));
                assert(after + chunks(flat.skip(off as int), size as nat) =~= before + (seq![row_view]
                    + chunks(flat.skip(off as int), size as nat)));
            }
        }
        proof {
            assert(flat.skip(count as int) =~= Seq::<usize>::empty());
            assert(chunks(flat.skip(count as int), size as nat) =~= Seq::<Seq<usize>>::empty());
            assert(groups@.map_values(|row: Vec<usize>| row@) + Seq::<Seq<usize>>::empty()
                =~= groups@.map_values(|row: Vec<usize>| row@));
        }
        let plan = FramePlan { groups, total_frames: self.total };
        assert(plan@ =~= FramePlanModel { groups: chunks(flat, p.group_size as nat), total_frames: self.model().total });
        Ok(plan)
    }
}

/// The digits that the template file name `template` picks out of each file name (or `None`
/// where it does not match).
pub open spec fn captured_digits(template: Seq<char>, names: Seq<Seq<char>>) -> Seq<Option<Seq<char>>> {
    names.map_values(|name: Seq<char>| frame_digits_of(template, name))
}

/// The outcome of collecting the frames among `names` (the file names of the directory's
/// files, in the order they were listed) for the template file name `file_name`.
pub open spec fn collected_frames(
    file_name: Option<Seq<char>>,
    params: ScanParams,
    names: Seq<Seq<char>>,
) -> Result<FramePlanModel, FrameErrorModel> {
    if params.end is Some && params.start > params.end->0 {
        Err(
            FrameErrorModel::EndBeforeStart {
                frame_start: params.start,
                frame_end: params.end->0,
            },
        )
    } else {
        match template_regex(file_name) {
            Err(e) => Err(e),
            Ok(_) => match scan_entries(params, captured_digits(file_name->0, names)) {
                Err(e) => Err(e),
                Ok(m) => finish_scan(params, m),
            },
        }
    }
}

/// Once scanning a prefix of the entries fails, scanning all of them fails the same way.
proof fn lemma_scan_error_persists(p: ScanParams, digits: Seq<Option<Seq<char>>>, k: int)
    requires
        0 <= k <= digits.len(),
        scan_entries(p, digits.take(k)) is Err,
    ensures
        scan_entries(p, digits) == scan_entries(p, digits.take(k)),
    decreases digits.len() - k,
{
    if k < digits.len() {
        assert(digits.take(k + 1).drop_last() =~= digits.take(k));
        lemma_scan_error_persists(p, digits, k + 1);
    } else {
        assert(digits.take(k) =~= digits);
    }
}

/// The texts of a list of strings.
pub open spec fn strings_view(names: Seq<String>) -> Seq<Seq<char>> {
    names.map_values(|p: String| p@)
}

/// Collects the input frames among `names`, the file names of the files of the input directory
/// in the order they were listed.
///
/// `template_file_name` is the file name of the input template; it holds a `{frame_nr}` marker
/// that stands for a run of digits, read as the frame number with leading zeros ignored.  File
/// names that match it as a whole are frames.  The frames from `frame_start` up to `frame_end`
/// (when given) must each have one file, with no gap from `frame_start` up to the largest one
/// found; they are grouped by `group_size` consecutive frames, every group full but the last.
/// The groups hold indices into `names`.
pub fn collect_frames(
    template_file_name: Option<&str>,
    frame_start: u64,
    frame_end: Option<u64>,
    group_size: u32,
    names: &Vec<String>,
) -> (res: Result<FramePlan, FrameError>)
    requires
        group_size > 0,
    ensures
        match (
            res,
            collected_frames(
                opt_str_view(template_file_name),
                ScanParams { start: frame_start, end: frame_end, group_size },
                strings_view(names@),
            ),
        ) {
            (Ok(plan), Ok(m)) => plan@ == m,
            (Err(e), Err(m)) => e@ == m,
            _ => false,
        },
{
    let mut scan = match FrameScan::new(frame_start, frame_end, group_size) {
        Ok(scan) => scan,
        Err(e) => {
            return Err(e);
        },
    };
    let template = match FrameTemplate::new(template_file_name) {
        Ok(t) => t,
        Err(e) => {
            return Err(e);
        },
    };
    let p = ScanParams { start: frame_start, end: frame_end, group_size };
    let ghost digits = captured_digits(template.template_name(), strings_view(names@));
    let mut k: usize = 0;
    while k < names.len()
        invariant
            scan.wf(),
            scan.params() == p,
            p == (ScanParams { start: frame_start, end: frame_end, group_size }),
            p.valid(),
            template_regex(opt_str_view(template_file_name)) == Ok::<Seq<char>, FrameErrorModel>(
                template.source(),
            ),
            k <= names.len(),
            template.template_name() == opt_str_view(template_file_name)->0,
            digits == captured_digits(template.template_name(), strings_view(names@)),
            scan_entries(p, digits.take(k as int)) == Ok::<ScanModel, FrameErrorModel>(scan.model()),
            scan.model().total <= k,
        decreases names.len() - k,
    {
        let found = template.frame_digits(names[k].as_str());
        assert(digits.take(k + 1).drop_last() =~= digits.take(k as int));
        assert(digits[k as int] == opt_string_view(found));
        let recorded = match &found {
            Some(d) => scan.record(k, Some(d.as_str())),
            None => scan.record(k, None),
        };
        match recorded {
            Ok(()) => {},
            Err(e) => {
                proof {
                    lemma_scan_error_persists(p, digits, k + 1);
                }
                return Err(e);
            },
        }
        k = k + 1;
    }
    assert(digits.take(k as int) =~= digits);
    scan.finish()
}


/// The frame an entry stands for, when its file name matched, its digits read as a number and
/// the number is one of the frames to process.
pub open spec fn selected_frame(p: ScanParams, digits: Option<Seq<char>>) -> Option<u64> {
    match digits {
        Some(d) => match frame_number(d) {
            Some(n) => if p.in_range(n) {
                Some(n)
            } else {
                None
            },
            None => None,
        },
        None => None,
    }
}

/// The entry did not match, or its digits read as a frame number.
pub open spec fn readable(digits: Option<Seq<char>>) -> bool {
    digits matches Some(d) ==> frame_number(d) is Some
}

/// Every entry's digits read as a number, and no two entries stand for the same frame to
/// process.
pub open spec fn scan_ok(p: ScanParams, digits: Seq<Option<Seq<char>>>) -> bool {
    &&& forall|e: int| 0 <= e < digits.len() ==> readable(#[trigger] digits[e])
    &&& forall|e1: int, e2: int|
        0 <= e1 < e2 < digits.len() && (#[trigger] selected_frame(p, digits[e1])) is Some
            ==> selected_frame(p, digits[e1]) != #[trigger] selected_frame(p, digits[e2])
}

/// The found frames are exactly those the entries stand for, each held by its entry.
pub open spec fn found_matches(p: ScanParams, digits: Seq<Option<Seq<char>>>, m: ScanModel) -> bool {
    &&& forall|n: u64|
        #[trigger] m.found.contains_key(n) ==> m.found[n] < digits.len() && selected_frame(
            p,
            digits[m.found[n] as int],
        ) == Some(n)
    &&& forall|e: int|
        0 <= e < digits.len() && (#[trigger] selected_frame(p, digits[e])) is Some ==> {
            let n = selected_frame(p, digits[e])->0;
            m.found.contains_key(n) && m.found[n] == e
        }
}

/// A scan succeeds exactly when every entry's digits read and no frame has two entries; then
/// it has found exactly the frames the entries stand for.
pub proof fn lemma_scan_outcome(p: ScanParams, digits: Seq<Option<Seq<char>>>)
    requires
        p.valid(),
        digits.len() <= usize::MAX,
    ensures
        (scan_entries(p, digits) is Ok) == scan_ok(p, digits),
        scan_entries(p, digits) matches Ok(m) ==> model_wf(p, m) && found_matches(p, digits, m),
    decreases digits.len(),
{
    if digits.len() == 0 {
        assert(empty_scan().found.dom() =~= Set::<u64>::empty());
    } else {
        let prefix = digits.drop_last();
        let e = (digits.len() - 1) as int;
        let last = digits.last();
        lemma_scan_outcome(p, prefix);
        assert forall|k: int| 0 <= k < prefix.len() implies prefix[k] == #[trigger] digits[k] by {}
        match scan_entries(p, prefix) {
            Err(_) => {
                if scan_ok(p, digits) {
                    assert forall|k: int| 0 <= k < prefix.len() implies readable(#[trigger] prefix[k]) by {
                        assert(readable(digits[k]));
                    }
                    assert forall|e1: int, e2: int|
                        0 <= e1 < e2 < prefix.len() && (#[trigger] selected_frame(p, prefix[e1])) is Some
                            implies selected_frame(p, prefix[e1]) != #[trigger] selected_frame(p, prefix[e2]) by {
                        assert(prefix[e1] == digits[e1]);
                        assert(prefix[e2] == digits[e2]);
                    }
                }
            },
            Ok(m0) => {
                lemma_scan_step_wf(p, m0, e as usize, last);
                assert(scan_entries(p, digits) == scan_step(p, m0, e as usize, last));
                match scan_step(p, m0, e as usize, last) {
                    Err(_) => {
                        if scan_ok(p, digits) {
                            assert(readable(digits[e]));
                            let n = selected_frame(p, last)->0;
                            assert(selected_frame(p, last) is Some);
                            let first = m0.found[n] as int;
                            assert(selected_frame(p, digits[first]) == Some(n));
                        }
                    },
                    Ok(m) => {
                        assert forall|k: int| 0 <= k < digits.len() implies readable(#[trigger] digits[k]) by {
                            if k < prefix.len() {
                                assert(readable(prefix[k]));
                            }
                        }
                        assert forall|e1: int, e2: int|
                            0 <= e1 < e2 < digits.len() && (#[trigger] selected_frame(p, digits[e1])) is Some
                                implies selected_frame(p, digits[e1]) != #[trigger] selected_frame(p, digits[e2]) by {
                            if e2 < prefix.len() {
                                assert(selected_frame(p, prefix[e1]) != selected_frame(p, prefix[e2]));
                            } else {
                                let n = selected_frame(p, prefix[e1])->0;
                                assert(m0.found.contains_key(n));
                            }
                        }
                        if selected_frame(p, last) is Some {
                            let n = selected_frame(p, last)->0;
                            assert(m.found == m0.found.insert(n, e as usize));
                            assert forall|n2: u64| #[trigger] m.found.contains_key(n2) implies m.found[n2]
                                < digits.len() && selected_frame(p, digits[m.found[n2] as int]) == Some(n2) by {
                                if n2 != n {
                                    assert(m0.found.contains_key(n2));
                                    assert(prefix[m0.found[n2] as int] == digits[m0.found[n2] as int]);
                                }
                            }
                            assert forall|e2: int|
                                0 <= e2 < digits.len() && (#[trigger] selected_frame(p, digits[e2])) is Some implies {
                                let n2 = selected_frame(p, digits[e2])->0;
                                m.found.contains_key(n2) && m.found[n2] == e2
                            } by {
                                if e2 < prefix.len() {
                                    assert(selected_frame(p, prefix[e2]) is Some);
                                    let n2 = selected_frame(p, digits[e2])->0;
                                    assert(m0.found.contains_key(n2) && m0.found[n2] == e2);
                                }
                            }
                        } else {
                            assert(m == m0);
                            assert forall|n2: u64| #[trigger] m.found.contains_key(n2) implies m.found[n2]
                                < digits.len() && selected_frame(p, digits[m.found[n2] as int]) == Some(n2) by {
                                assert(prefix[m0.found[n2] as int] == digits[m0.found[n2] as int]);
                            }
                            assert forall|e2: int|
                                0 <= e2 < digits.len() && (#[trigger] selected_frame(p, digits[e2])) is Some implies {
                                let n2 = selected_frame(p, digits[e2])->0;
                                m.found.contains_key(n2) && m.found[n2] == e2
                            } by {
                                if e2 < prefix.len() {
                                    assert(selected_frame(p, prefix[e2]) is Some);
                                }
                            }
                        }
                    },
                }
            },
        }
    }
}

/// `first_missing_from` finds the smallest frame without a file from `n` up to `last`, and
/// finds none only when every one of them has a file.
pub proof fn lemma_first_missing(found: Map<u64, usize>, n: int, last: int)
    requires
        0 <= n,
        last <= u64::MAX,
    ensures
        match first_missing_from(found, n, last) {
            Some(k) => n <= k <= last && !found.contains_key(k) && forall|j: u64|
                n <= j < k ==> #[trigger] found.contains_key(j),
            None => forall|j: u64| n <= j <= last ==> #[trigger] found.contains_key(j),
        },
    decreases last + 1 - n,
{
    if n <= last && found.contains_key(n as u64) {
        lemma_first_missing(found, n + 1, last);
    }
}

/// A finite set of frame numbers that holds exactly the frames `a` to `b` has `b - a + 1`
/// elements.
proof fn lemma_range_len(s: Set<u64>, a: u64, b: u64)
    requires
        s.finite(),
        a <= b,
        forall|k: u64| #[trigger] s.contains(k) <==> a <= k <= b,
    ensures
        s.len() == b - a + 1,
    decreases b - a,
{
    if a == b {
        assert(s =~= Set::<u64>::empty().insert(a));
    } else {
        let s2 = s.remove(b);
        lemma_range_len(s2, a, (b - 1) as u64);
        assert(s.contains(b));
    }
}

/// The groups, one after another.
pub open spec fn concat_groups(groups: Seq<Seq<usize>>) -> Seq<usize>
    decreases groups.len(),
{
    if groups.len() == 0 {
        Seq::empty()
    } else {
        groups[0] + concat_groups(groups.drop_first())
    }
}

/// Cutting into groups keeps the sequence (the groups, one after another, give it back),
/// every group but the last is full, and the last one is not empty.
pub proof fn lemma_chunks_shape(x: Seq<usize>, size: nat)
    requires
        size > 0,
    ensures
        concat_groups(chunks(x, size)) == x,
        forall|g: int| 0 <= g < chunks(x, size).len() - 1 ==> #[trigger] chunks(x, size)[g].len() == size,
        chunks(x, size).len() > 0 ==> 1 <= chunks(x, size).last().len() <= size,
        (chunks(x, size).len() == 0) == (x.len() == 0),
    decreases x.len(),
{
    if x.len() == 0 {
    } else if x.len() <= size {
        let c = chunks(x, size);
        assert(c =~= seq![x]);
        assert(c.drop_first() =~= Seq::<Seq<usize>>::empty());
        assert(c[0] == x);
        assert(concat_groups(Seq::<Seq<usize>>::empty()) == Seq::<usize>::empty());
        assert(concat_groups(c) == x + Seq::<usize>::empty());
        assert(x + Seq::<usize>::empty() =~= x);
    } else {
        let rest = x.skip(size as int);
        lemma_chunks_shape(rest, size);
        let c = chunks(x, size);
        assert(c == seq![x.take(size as int)] + chunks(rest, size));
        assert(c.drop_first() =~= chunks(rest, size));
        assert(x.take(size as int) + rest =~= x);
        assert forall|g: int| 0 <= g < c.len() - 1 implies #[trigger] c[g].len() == size by {
            if g > 0 {
                assert(c[g] == chunks(rest, size)[g - 1]);
            }
        }
        assert(c.last() == chunks(rest, size).last());
    }
}

/// Cutting into groups commutes with applying a function to every element.
pub proof fn lemma_chunks_map<A>(x: Seq<usize>, size: nat, f: spec_fn(usize) -> A)
    requires
        size > 0,
    ensures
        chunks(x, size).map_values(|row: Seq<usize>| row.map_values(f)) == chunks(
            x.map_values(f),
            size,
        ),
    decreases x.len(),
{
    if x.len() == 0 {
        assert(chunks(x, size).map_values(|row: Seq<usize>| row.map_values(f)) =~= Seq::<Seq<A>>::empty());
    } else if x.len() <= size {
        assert(chunks(x, size).map_values(|row: Seq<usize>| row.map_values(f)) =~= seq![x.map_values(f)]);
    } else {
        let rest = x.skip(size as int);
        lemma_chunks_map(rest, size, f);
        assert(x.map_values(f).take(size as int) =~= x.take(size as int).map_values(f));
        assert(x.map_values(f).skip(size as int) =~= rest.map_values(f));
        let lhs = chunks(x, size).map_values(|row: Seq<usize>| row.map_values(f));
        let rhs = chunks(x.map_values(f), size);
        assert(rhs == seq![x.map_values(f).take(size as int)] + chunks(x.map_values(f).skip(size as int), size));
        assert(lhs =~= rhs);
    }
}

/// Some entry stands for frame `k`, one of the frames to process.
pub open spec fn has_frame(p: ScanParams, digits: Seq<Option<Seq<char>>>, k: u64) -> bool {
    exists|e: int| 0 <= e < digits.len() && #[trigger] selected_frame(p, digits[e]) == Some(k)
}

/// The frames the entries stand for have no gap: below every one of them, down to the start,
/// every frame has an entry.
pub open spec fn consecutive(p: ScanParams, digits: Seq<Option<Seq<char>>>) -> bool {
    forall|j: u64, k: u64|
        #![trigger has_frame(p, digits, j), has_frame(p, digits, k)]
        p.start <= j <= k && has_frame(p, digits, k) ==> has_frame(p, digits, j)
}

/// The settings are accepted: the range is not empty and the template gives a regular
/// expression.
pub open spec fn settings_ok(file_name: Option<Seq<char>>, p: ScanParams) -> bool {
    &&& !(p.end is Some && p.start > p.end->0)
    &&& template_regex(file_name) is Ok
}

/// The settings are checked before any file name is looked at: when they are refused, the
/// outcome is the same error whatever the directory holds.  A range that ends before it starts
/// is reported first, then a template without a file name, then one without the marker.
pub proof fn lemma_settings_checked_first(
    file_name: Option<Seq<char>>,
    p: ScanParams,
    names: Seq<Seq<char>>,
)
    requires
        !settings_ok(file_name, p),
    ensures
        collected_frames(file_name, p, names) is Err,
        collected_frames(file_name, p, names) == collected_frames(file_name, p, Seq::empty()),
        p.end is Some && p.start > p.end->0 ==> collected_frames(file_name, p, names) == Err::<
            FramePlanModel,
            FrameErrorModel,
        >(FrameErrorModel::EndBeforeStart { frame_start: p.start, frame_end: p.end->0 }),
        !(p.end is Some && p.start > p.end->0) && file_name is None ==> collected_frames(
            file_name,
            p,
            names,
        ) == Err::<FramePlanModel, FrameErrorModel>(FrameErrorModel::MissingFileName),
        !(p.end is Some && p.start > p.end->0) && (file_name matches Some(n) && find_marker_from(n, 0)
            is None) ==> collected_frames(file_name, p, names) == Err::<FramePlanModel, FrameErrorModel>(
            FrameErrorModel::MissingMarker,
        ),
{
}

/// Collecting succeeds exactly when the settings are accepted, every matching file name's
/// digits read as a number, no frame has two files, and the frames found have no gap from the
/// start.  Then the groups, one after another, are the files of frames `start`, `start + 1`,
/// ..., `start + total - 1` in that order; every file standing for a frame to process is among
/// them; every group but the last holds `group_size` files and the last holds 1 to
/// `group_size`.
pub proof fn lemma_collected_frames_outcome(
    file_name: Option<Seq<char>>,
    p: ScanParams,
    names: Seq<Seq<char>>,
)
    requires
        p.group_size > 0,
        names.len() <= usize::MAX,
    ensures
        ({
            let digits = captured_digits(file_name->0, names);
            &&& (collected_frames(file_name, p, names) is Ok) == (settings_ok(file_name, p)
                && scan_ok(p, digits) && consecutive(p, digits))
            &&& collected_frames(file_name, p, names) matches Ok(plan) ==> {
                let flat = concat_groups(plan.groups);
                &&& flat.len() == plan.total_frames
                &&& p.start + flat.len() <= u64::MAX + 1
                &&& forall|k: int|
                    0 <= k < flat.len() ==> #[trigger] flat[k] < names.len() && selected_frame(
                        p,
                        digits[flat[k] as int],
                    ) == Some((p.start + k) as u64)
                &&& forall|e: int|
                    0 <= e < names.len() && (#[trigger] selected_frame(p, digits[e])) is Some ==> {
                        let n = selected_frame(p, digits[e])->0;
                        n - p.start < flat.len() && flat[n - p.start] == e
                    }
                &&& forall|g: int|
                    0 <= g < plan.groups.len() - 1 ==> #[trigger] plan.groups[g].len() == p.group_size
                &&& plan.groups.len() > 0 ==> 1 <= plan.groups.last().len() <= p.group_size
            }
        }),
{
    if settings_ok(file_name, p) {
        let digits = captured_digits(file_name->0, names);
        assert(p.valid());
        lemma_scan_outcome(p, digits);
        if let Ok(m) = scan_entries(p, digits) {
            assert forall|k: u64| has_frame(p, digits, k) == m.found.contains_key(k) by {
                if m.found.contains_key(k) {
                    assert(selected_frame(p, digits[m.found[k] as int]) == Some(k));
                }
                if has_frame(p, digits, k) {
                    let e = choose|e: int| 0 <= e < digits.len() && #[trigger] selected_frame(p, digits[e]) == Some(k);
                    assert(selected_frame(p, digits[e]) is Some);
                }
            }
            match m.last {
                None => {
                    assert(m.found.dom().len() == 0);
                    assert forall|j: u64, k: u64|
                        #![trigger has_frame(p, digits, j), has_frame(p, digits, k)]
                        p.start <= j <= k && has_frame(p, digits, k) implies has_frame(p, digits, j) by {
                        assert(!m.found.dom().contains(k));
                    }
                    assert forall|e: int|
                        0 <= e < names.len() && (#[trigger] selected_frame(p, digits[e])) is Some implies false by {
                        let n = selected_frame(p, digits[e])->0;
                        assert(m.found.contains_key(n));
                        assert(m.found.dom().contains(n));
                    }
                    assert(concat_groups(Seq::<Seq<usize>>::empty()) == Seq::<usize>::empty());
                },
                Some(l) => {
                    lemma_first_missing(m.found, p.start as int, l as int);
                    assert(has_frame(p, digits, l));
                    match first_missing_from(m.found, p.start as int, l as int) {
                        Some(k0) => {
                            assert(!has_frame(p, digits, k0));
                        },
                        None => {
                            assert forall|j: u64, k: u64|
                                #![trigger has_frame(p, digits, j), has_frame(p, digits, k)]
                                p.start <= j <= k && has_frame(p, digits, k) implies has_frame(p, digits, j) by {
                                assert(m.found.contains_key(k));
                                assert(m.found.contains_key(j));
                            }
                            let count = (l - p.start + 1) as nat;
                            assert(p.in_range(l));
                            assert forall|k: u64| #[trigger] m.found.dom().contains(k) <==> p.start <= k <= l by {
                                if m.found.dom().contains(k) {
                                    assert(m.found.contains_key(k));
                                }
                            }
                            lemma_range_len(m.found.dom(), p.start, l);
                            let flat_in = frames_in_order(m.found, p.start, count);
                            lemma_chunks_shape(flat_in, p.group_size as nat);
                            let plan = collected_frames(file_name, p, names)->Ok_0;
                            assert(plan.groups == chunks(flat_in, p.group_size as nat));
                            let flat = concat_groups(plan.groups);
                            assert(flat == flat_in);
                            assert forall|k: int| 0 <= k < flat.len() implies #[trigger] flat[k] < names.len()
                                && selected_frame(p, digits[flat[k] as int]) == Some((p.start + k) as u64) by {
                                let n = (p.start + k) as u64;
                                assert(m.found.contains_key(n));
                            }
                            assert forall|e: int|
                                0 <= e < names.len() && (#[trigger] selected_frame(p, digits[e])) is Some implies {
                                let n = selected_frame(p, digits[e])->0;
                                n - p.start < flat.len() && flat[n - p.start] == e
                            } by {
                                let n = selected_frame(p, digits[e])->0;
                                assert(m.found.contains_key(n));
                                assert(((p.start + (n - p.start)) as u64) == n);
                            }
                        },
                    }
                },
            }
        }
    }
}

/// The range of frames to process is `frame_start..=frame_end`, both ends included: when
/// collecting succeeds, every file whose frame number `n` has `start <= n` (and `n <= end`,
/// when an end is given) is in the groups, at position `n - start`; no frame after the end
/// is; and when the file of the end frame is listed, there are exactly `end - start + 1`
/// frames.
pub proof fn lemma_frame_range_inclusive(
    file_name: Option<Seq<char>>,
    p: ScanParams,
    names: Seq<Seq<char>>,
)
    requires
        p.group_size > 0,
        names.len() <= usize::MAX,
    ensures
        collected_frames(file_name, p, names) matches Ok(plan) ==> {
            let digits = captured_digits(file_name->0, names);
            let flat = concat_groups(plan.groups);
            &&& forall|e: int|
                0 <= e < names.len() && (#[trigger] digits[e] matches Some(d) && frame_number(d) matches Some(n)
                    && p.start <= n && (p.end matches Some(last) ==> n <= last)) ==> {
                    let n = frame_number(digits[e]->0)->0;
                    n - p.start < flat.len() && flat[n - p.start] == e
                }
            &&& p.end matches Some(last) ==> flat.len() <= last - p.start + 1
            &&& p.end matches Some(last) ==> (forall|e: int|
                0 <= e < names.len() && (#[trigger] digits[e] matches Some(d) && frame_number(d) == Some(
                    last,
                )) ==> flat.len() == last - p.start + 1)
        },
{
    if let Ok(plan) = collected_frames(file_name, p, names) {
        lemma_collected_frames_outcome(file_name, p, names);
        let digits = captured_digits(file_name->0, names);
        let flat = concat_groups(plan.groups);
        assert forall|e: int|
            0 <= e < names.len() && (#[trigger] digits[e] matches Some(d) && frame_number(d) matches Some(n)
                && p.start <= n && (p.end matches Some(last) ==> n <= last)) implies {
                let n = frame_number(digits[e]->0)->0;
                n - p.start < flat.len() && flat[n - p.start] == e
            } by {
            let n = frame_number(digits[e]->0)->0;
            assert(selected_frame(p, digits[e]) == Some(n));
        }
        if let Some(last) = p.end {
            assert(p.start <= last);
            if flat.len() > last - p.start + 1 {
                let k = last - p.start + 1;
                assert(flat[k] < names.len());
                let sel = selected_frame(p, digits[flat[k] as int]);
                assert(sel is Some && sel->0 == p.start + k);
                assert(false);
            }
            assert forall|e: int|
                0 <= e < names.len() && (#[trigger] digits[e] matches Some(d) && frame_number(d) == Some(
                    last,
                )) implies flat.len() == last - p.start + 1 by {
                assert(selected_frame(p, digits[e]) == Some(last));
            }
        }
    }
}

/// `names2` lists the same file names as `names`, in another order: `names2[i]` is
/// `names[perm[i]]` and `perm` is a bijection of the positions.
pub open spec fn is_reordering(names: Seq<Seq<char>>, names2: Seq<Seq<char>>, perm: Seq<int>) -> bool {
    &&& names2.len() == names.len()
    &&& perm.len() == names.len()
    &&& forall|i: int| 0 <= i < perm.len() ==> 0 <= #[trigger] perm[i] < names.len()
    &&& forall|i: int| 0 <= i < perm.len() ==> #[trigger] names2[i] == names[perm[i]]
    &&& forall|i: int, j: int| 0 <= i < j < perm.len() ==> #[trigger] perm[i] != #[trigger] perm[j]
    &&& forall|k: int| 0 <= k < names.len() ==> #[trigger] lists_position(perm, k)
}

/// Some position of `perm` holds `k`.
pub open spec fn lists_position(perm: Seq<int>, k: int) -> bool {
    exists|i: int| 0 <= i < perm.len() && #[trigger] perm[i] == k
}

/// The groups, with every entry index replaced by the file name it stands for.
pub open spec fn named_groups(groups: Seq<Seq<usize>>, names: Seq<Seq<char>>) -> Seq<Seq<Seq<char>>> {
    groups.map_values(|row: Seq<usize>| row.map_values(|e: usize| names[e as int]))
}

/// The outcome does not depend on the order in which the directory lists its files: listing
/// the same files in another order succeeds exactly when the first listing does, and then
/// gives the same groups of files and the same number of frames.
pub proof fn lemma_collected_frames_order_independent(
    file_name: Option<Seq<char>>,
    p: ScanParams,
    names: Seq<Seq<char>>,
    names2: Seq<Seq<char>>,
    perm: Seq<int>,
)
    requires
        p.group_size > 0,
        names.len() <= usize::MAX,
        is_reordering(names, names2, perm),
    ensures
        (collected_frames(file_name, p, names) is Ok) == (collected_frames(file_name, p, names2) is Ok),
        collected_frames(file_name, p, names) matches Ok(plan) ==> {
            let plan2 = collected_frames(file_name, p, names2)->Ok_0;
            &&& plan2.total_frames == plan.total_frames
            &&& named_groups(plan2.groups, names2) == named_groups(plan.groups, names)
        },
{
    if settings_ok(file_name, p) {
        let d = captured_digits(file_name->0, names);
        let d2 = captured_digits(file_name->0, names2);
        assert forall|i: int| 0 <= i < perm.len() implies #[trigger] d2[i] == d[perm[i]] by {
            assert(names2[i] == names[perm[i]]);
        }
        lemma_collected_frames_outcome(file_name, p, names);
        lemma_collected_frames_outcome(file_name, p, names2);
        lemma_scan_outcome(p, d);
        lemma_scan_outcome(p, d2);
        // Every entry of the first listing is some entry of the second.
        assert forall|k: u64| has_frame(p, d, k) == has_frame(p, d2, k) by {
            if has_frame(p, d, k) {
                let e = choose|e: int| 0 <= e < d.len() && #[trigger] selected_frame(p, d[e]) == Some(k);
                assert(lists_position(perm, e));
                let i = choose|i: int| 0 <= i < perm.len() && #[trigger] perm[i] == e;
                assert(selected_frame(p, d2[i]) == Some(k));
            }
            if has_frame(p, d2, k) {
                let i = choose|i: int| 0 <= i < d2.len() && #[trigger] selected_frame(p, d2[i]) == Some(k);
                assert(d2[i] == d[perm[i]]);
                assert(selected_frame(p, d[perm[i]]) == Some(k));
            }
        }
        assert(consecutive(p, d) == consecutive(p, d2));
        // Every entry's digits read in one listing exactly when in the other.
        assert((forall|e: int| 0 <= e < d.len() ==> readable(#[trigger] d[e])) == (forall|e: int|
            0 <= e < d2.len() ==> readable(#[trigger] d2[e]))) by {
            if forall|e: int| 0 <= e < d.len() ==> readable(#[trigger] d[e]) {
                assert forall|e: int| 0 <= e < d2.len() implies readable(#[trigger] d2[e]) by {
                    assert(d2[e] == d[perm[e]]);
                }
            }
            if forall|e: int| 0 <= e < d2.len() ==> readable(#[trigger] d2[e]) {
                assert forall|e: int| 0 <= e < d.len() implies readable(#[trigger] d[e]) by {
                    assert(lists_position(perm, e));
                    let i = choose|i: int| 0 <= i < perm.len() && #[trigger] perm[i] == e;
                    assert(readable(d2[i]));
                }
            }
        }
        // Two entries share a frame in one listing exactly when in the other.
        let dup = |dd: Seq<Option<Seq<char>>>|
            forall|e1: int, e2: int|
                0 <= e1 < e2 < dd.len() && (#[trigger] selected_frame(p, dd[e1])) is Some
                    ==> selected_frame(p, dd[e1]) != #[trigger] selected_frame(p, dd[e2]);
        assert(dup(d) == dup(d2)) by {
            if dup(d) {
                assert forall|e1: int, e2: int|
                    0 <= e1 < e2 < d2.len() && (#[trigger] selected_frame(p, d2[e1])) is Some
                        implies selected_frame(p, d2[e1]) != #[trigger] selected_frame(p, d2[e2]) by {
                    let a = perm[e1];
                    let b = perm[e2];
                    assert(d2[e1] == d[a]);
                    assert(d2[e2] == d[b]);
                    if a < b {
                        assert(selected_frame(p, d[a]) != selected_frame(p, d[b]));
                    } else {
                        assert(a != b);
                        if selected_frame(p, d[b]) is Some {
                            assert(selected_frame(p, d[b]) != selected_frame(p, d[a]));
                        }
                    }
                }
            }
            if dup(d2) {
                assert forall|e1: int, e2: int|
                    0 <= e1 < e2 < d.len() && (#[trigger] selected_frame(p, d[e1])) is Some
                        implies selected_frame(p, d[e1]) != #[trigger] selected_frame(p, d[e2]) by {
                    assert(lists_position(perm, e1));
                    let a = choose|i: int| 0 <= i < perm.len() && #[trigger] perm[i] == e1;
                    assert(lists_position(perm, e2));
                    let b = choose|i: int| 0 <= i < perm.len() && #[trigger] perm[i] == e2;
                    assert(d2[a] == d[e1]);
                    assert(d2[b] == d[e2]);
                    assert(a != b);
                    if a < b {
                        assert(selected_frame(p, d2[a]) != selected_frame(p, d2[b]));
                    } else {
                        if selected_frame(p, d2[b]) is Some {
                            assert(selected_frame(p, d2[b]) != selected_frame(p, d2[a]));
                        }
                    }
                }
            }
        }
        assert(scan_ok(p, d) == scan_ok(p, d2));
        if let Ok(plan) = collected_frames(file_name, p, names) {
            let m = scan_entries(p, d)->Ok_0;
            let m2 = scan_entries(p, d2)->Ok_0;
            let plan2 = collected_frames(file_name, p, names2)->Ok_0;
            // The same frames are found, and each is held by the same file name.
            assert forall|n: u64| m.found.contains_key(n) == m2.found.contains_key(n) by {
                if m.found.contains_key(n) {
                    assert(selected_frame(p, d[m.found[n] as int]) == Some(n));
                    assert(has_frame(p, d, n));
                    let i = choose|i: int| 0 <= i < d2.len() && #[trigger] selected_frame(p, d2[i]) == Some(n);
                    assert(selected_frame(p, d2[i]) is Some);
                }
                if m2.found.contains_key(n) {
                    assert(selected_frame(p, d2[m2.found[n] as int]) == Some(n));
                    assert(has_frame(p, d2, n));
                    let e = choose|e: int| 0 <= e < d.len() && #[trigger] selected_frame(p, d[e]) == Some(n);
                    assert(selected_frame(p, d[e]) is Some);
                }
            }
            assert(m.found.dom() =~= m2.found.dom());
            assert forall|n: u64| #[trigger] m2.found.contains_key(n) implies names2[m2.found[n] as int]
                == names[m.found[n] as int] by {
                let i = m2.found[n] as int;
                assert(selected_frame(p, d2[i]) == Some(n));
                assert(d2[i] == d[perm[i]]);
                assert(selected_frame(p, d[perm[i]]) is Some);
                assert(m.found[n] == perm[i]);
            }
            // The largest frame found is the same.
            match (m.last, m2.last) {
                (Some(l), Some(l2)) => {
                    assert(m2.found.contains_key(l));
                    assert(m.found.contains_key(l2));
                    assert(l == l2);
                },
                (None, Some(l2)) => {
                    assert(m2.found.dom().contains(l2));
                },
                (Some(l), None) => {
                    assert(m.found.dom().contains(l));
                },
                (None, None) => {},
            }
            assert(m.total == m2.total);
            if let Some(l) = m.last {
                let count = (l - p.start + 1) as nat;
                let f1 = |e: usize| names[e as int];
                let f2 = |e: usize| names2[e as int];
                let x1 = frames_in_order(m.found, p.start, count);
                let x2 = frames_in_order(m2.found, p.start, count);
                lemma_first_missing(m.found, p.start as int, l as int);
                assert(x2.map_values(f2) =~= x1.map_values(f1)) by {
                    assert forall|k: int| 0 <= k < count implies #[trigger] x2.map_values(f2)[k]
                        == x1.map_values(f1)[k] by {
                        let n = (p.start + k) as u64;
                        assert(m.found.contains_key(n));
                        assert(m2.found.contains_key(n));
                    }
                }
                lemma_chunks_map(x1, p.group_size as nat, f1);
                lemma_chunks_map(x2, p.group_size as nat, f2);
                assert(named_groups(plan.groups, names) =~= chunks(x1, p.group_size as nat).map_values(
                    |row: Seq<usize>| row.map_values(f1),
                ));
                assert(named_groups(plan2.groups, names2) =~= chunks(x2, p.group_size as nat).map_values(
                    |row: Seq<usize>| row.map_values(f2),
                ));
            } else {
                assert(named_groups(plan.groups, names) =~= named_groups(plan2.groups, names2));
            }
        }
    }
}

} // verus!
