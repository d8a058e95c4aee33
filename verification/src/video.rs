//! Video support: which files are videos, the temporary directory that the frames
//! of a video are extracted to, and the order of these frames.

use std::path::PathBuf;

use vstd::prelude::*;
use vstd::string::StringExecFns;

use crate::text::{
    after_last, chars_of, decimal, decode_lossy, equal, hexadecimal, last_index_of,
    law_decimal_digits, law_decimal_is_read_back, law_hexadecimal_digits,
    law_numbers_are_digits, law_rest_follows_the_last, law_trimming_end, number, parse,
    rest_after_last, to_decimal, to_hexadecimal, trimmed_end, utf8_lossy, Class,
};

verus! {

/// `std::path::PathBuf`, a path.
#[verifier::external_type_specification]
#[verifier::external_body]
pub struct ExPathBuf(std::path::PathBuf);

/// The extensions of videos.
pub open spec fn video_extensions() -> Seq<Seq<char>> {
    seq![
        "mp4"@,
        "mov"@,
        "avi"@,
        "mkv"@,
        "webm"@,
        "m4v"@,
        "ts"@,
        "mpeg"@,
        "mpg"@,
        "wmv"@,
    ]
}

/// Whether a file with the given extension is a video; case does not matter.
pub open spec fn is_video_extension_of(extension: Option<Seq<char>>) -> bool {
    match extension {
        Some(e) => video_extensions().contains(lowercase(e)),
        None => false,
    }
}

/// Whether a text consists of ASCII characters.
pub open spec fn is_ascii_text(s: Seq<char>) -> bool {
    forall|i: int| 0 <= i < s.len() ==> (#[trigger] s[i] as u32) < 0x80
}

/// `r` tells whether a file with the given extension is a video. An extension in ASCII
/// is one of a video if it is listed once its letters are in lower case.
pub open spec fn tells_video(extension: Option<Seq<char>>, r: bool) -> bool {
    &&& r == is_video_extension_of(extension)
    &&& extension matches Some(e) ==> is_ascii_text(e) ==> r == video_extensions().contains(
        e.map_values(|c: char| ascii_lowercase(c)),
    )
}

/// The last component of a path that is neither empty nor a single dot.
pub open spec fn last_component(path: Seq<char>) -> Option<Seq<char>>
    decreases path.len(),
    via last_component_decreases
{
    let name = after_last(path, '/');
    if name.len() > 0 && name != seq!['.'] {
        Some(name)
    } else {
        match last_index_of(path, '/') {
            Some(i) => last_component(path.take(i)),
            None => None,
        }
    }
}

#[via_fn]
proof fn last_component_decreases(path: Seq<char>) {
    lemma_last_index_bound(path, '/', path.len() as int);
}

proof fn lemma_last_index_bound(s: Seq<char>, c: char, n: int)
    requires
        n <= s.len(),
    ensures
        crate::text::last_index_below(s, c, n) matches Some(i) ==> 0 <= i < n && s[i] == c,
    decreases n,
{
    if n > 0 {
        lemma_last_index_bound(s, c, n - 1);
    }
}

/// The part of a file name after its last dot, if it has a dot that is not its
/// first character. The name of the parent directory has none.
pub open spec fn extension_of_name(name: Seq<char>) -> Option<Seq<char>> {
    if name == seq!['.', '.'] {
        None
    } else {
        match last_index_of(name, '.') {
            Some(i) => if i > 0 {
                Some(name.skip(i + 1))
            } else {
                None
            },
            None => None,
        }
    }
}

/// The extension of a path with slashes.
pub open spec fn extension_of_path(path: Seq<char>) -> Option<Seq<char>> {
    match last_component(path) {
        Some(name) => extension_of_name(name),
        None => None,
    }
}

/// Whether a path reads the same on all systems: without the backslashes, the colons
/// and the two slashes in front that only some systems take for separators and
/// prefixes.
pub open spec fn is_portable(path: Seq<char>) -> bool {
    &&& !path.contains('\\')
    &&& !path.contains(':')
    &&& !(path.len() >= 2 && path[0] == '/' && path[1] == '/')
}

/// The text after the last slash, backslash or colon of a path.
pub open spec fn last_part(path: Seq<char>) -> Seq<char> {
    after_last(after_last(after_last(path, '/'), '\\'), ':')
}

/// Whether a character is a slash or a backslash.
pub open spec fn is_slash(c: char) -> bool {
    c == '/' || c == '\\'
}

/// Whether a path begins with two slashes or backslashes, which may begin a prefix.
pub open spec fn may_have_prefix(path: Seq<char>) -> bool {
    path.len() >= 2 && is_slash(path[0]) && is_slash(path[1])
}

/// Whether the text from `from` to `to` is a component: not empty, without slashes, and
/// followed by one.
pub open spec fn is_component(path: Seq<char>, from: int, to: int) -> bool {
    &&& 0 <= from < to < path.len()
    &&& is_slash(path[to])
    &&& forall|i: int| from <= i < to ==> !is_slash(#[trigger] path[i])
}

/// Whether a path begins with two slashes, the name of a server and that of a share,
/// which end at `server` and `share`.
pub open spec fn has_share(path: Seq<char>, server: int, share: int) -> bool {
    &&& may_have_prefix(path)
    &&& is_component(path, 2, server)
    &&& is_component(path, server + 1, share)
    &&& path.subrange(2, server) != seq!['?']
    &&& path.subrange(2, server) != seq!['.']
}

/// Whether what a path begins with is no prefix, or a server and a share that are
/// followed by more.
pub open spec fn has_known_prefix(path: Seq<char>) -> bool {
    may_have_prefix(path) ==> exists|server: int, share: int| #[trigger]
        has_share(path, server, share)
}

/// The extension of the last part of a path, apart from the slashes at its end.
pub open spec fn last_extension(path: Seq<char>) -> Option<Seq<char>> {
    extension_of_name(last_part(trimmed_end(path, Class::Only('/'))))
}

/// Whether a path ends in a name with an extension, wherever the system takes the
/// name to begin.
pub open spec fn ends_in_extension(path: Seq<char>) -> bool {
    has_known_prefix(trimmed_end(path, Class::Only('/'))) && last_extension(path) is Some
}

/// `std::path::Path::extension` returns the part of the file name after its last
/// dot; the file name is the last component of the path. Of a path that is not
/// portable it is claimed where the last dot follows some character of the last
/// part, so that all systems find the same extension, and where there is no dot, so
/// that none does. Two slashes may begin a prefix, which is no file name: there the last
/// part must come after a server and a share. What another such path gives depends on
/// the system.
#[verifier::external_body]
fn path_extension(path: &str) -> (extension: Option<String>)
    ensures
        is_portable(path@) ==> match extension {
            Some(e) => extension_of_path(path@) == Some(e@),
            None => extension_of_path(path@) is None,
        },
        ends_in_extension(path@) ==> match extension {
            Some(e) => last_extension(path@) == Some(e@),
            None => false,
        },
        !path@.contains('.') ==> extension is None,
{
    let extension = std::path::Path::new(path).extension()?;
    extension.to_str().map(String::from)
}

/// What `str::to_lowercase` makes of a text.
pub uninterp spec fn lowercase(s: Seq<char>) -> Seq<char>;

/// An ASCII letter in lower case; any other character as it is.
pub open spec fn ascii_lowercase(c: char) -> char {
    if 'A' <= c <= 'Z' {
        (c as u32 + 32) as char
    } else {
        c
    }
}

/// `str::to_lowercase` returns a text that depends on its argument alone. In a text
/// of ASCII characters it changes the letters from `A` to `Z` to those from `a` to
/// `z` and nothing else.
#[verifier::external_body]
fn to_lowercase(s: &str) -> (r: String)
    ensures
        r@ == lowercase(s@),
        is_ascii_text(s@) ==> r@ == s@.map_values(|c: char| ascii_lowercase(c)),
{
    s.to_lowercase()
}

/// Whether an extension in lower case is one of a video.
pub fn is_listed(extension: &[char]) -> (r: bool)
    ensures
        r == video_extensions().contains(extension@),
{
    let mp4: Vec<char> = chars_of("mp4");
    let mov: Vec<char> = chars_of("mov");
    let avi: Vec<char> = chars_of("avi");
    let mkv: Vec<char> = chars_of("mkv");
    let webm: Vec<char> = chars_of("webm");
    let m4v: Vec<char> = chars_of("m4v");
    let ts: Vec<char> = chars_of("ts");
    let mpeg: Vec<char> = chars_of("mpeg");
    let mpg: Vec<char> = chars_of("mpg");
    let wmv: Vec<char> = chars_of("wmv");
    let r: bool = equal(extension, mp4.as_slice()) || equal(extension, mov.as_slice()) || equal(
        extension,
        avi.as_slice(),
    ) || equal(extension, mkv.as_slice()) || equal(extension, webm.as_slice()) || equal(
        extension,
        m4v.as_slice(),
    ) || equal(extension, ts.as_slice()) || equal(extension, mpeg.as_slice()) || equal(
        extension,
        mpg.as_slice(),
    ) || equal(extension, wmv.as_slice());
    proof {
        let all = video_extensions();
        assert(all[0] == mp4@ && all[1] == mov@ && all[2] == avi@ && all[3] == mkv@ && all[4]
            == webm@ && all[5] == m4v@ && all[6] == ts@ && all[7] == mpeg@ && all[8] == mpg@
            && all[9] == wmv@);
    }
    r
}

/// Whether a file with the given extension is a video; case does not matter.
pub fn is_video_extension(extension: Option<&str>) -> (r: bool)
    ensures
        tells_video(
            match extension {
                Some(e) => Some(e@),
                None => None,
            },
            r,
        ),
{
    match extension {
        Some(e) => {
            let lower: String = to_lowercase(e);
            let chars: Vec<char> = chars_of(lower.as_str());
            is_listed(chars.as_slice())
        },
        None => false,
    }
}

/// Whether a path leads to a video, by its extension.
pub fn is_video(path: &str) -> (r: bool)
    ensures
        is_portable(path@) ==> tells_video(extension_of_path(path@), r),
        ends_in_extension(path@) ==> tells_video(last_extension(path@), r),
        !path@.contains('.') ==> !r,
{
    let extension: Option<String> = path_extension(path);
    match &extension {
        Some(e) => is_video_extension(Some(e.as_str())),
        None => is_video_extension(None),
    }
}

/// A temporary directory.
pub struct TempDir {
    path: PathBuf,
}

impl TempDir {
    pub closed spec fn location(self) -> PathBuf {
        self.path
    }

    /// The directory at a path, which was created for the caller alone.
    pub fn at(path: PathBuf) -> (dir: TempDir)
        ensures
            dir.location() == path,
    {
        TempDir { path }
    }

    /// Where the directory is.
    pub fn path(&self) -> (path: &PathBuf)
        ensures
            *path == self.location(),
    {
        &self.path
    }
}

/// How often a temporary directory is tried under another name.
pub const CREATE_ATTEMPTS: u32 = 100;

/// The name of a temporary directory: the prefix, the id of the process and the
/// nanoseconds of the time, the last in hexadecimal.
pub open spec fn temp_dir_name_of(prefix: Seq<char>, process: u32, nanos: u32) -> Seq<char> {
    prefix + "-"@ + decimal(process as nat) + "-"@ + hexadecimal(nanos as nat)
}

/// The name of a temporary directory.
pub fn temp_dir_name(prefix: &str, process: u32, nanos: u32) -> (name: String)
    ensures
        name@ == temp_dir_name_of(prefix@, process, nanos),
{
    let mut name: String = prefix.to_owned();
    name.append("-");
    name.append(to_decimal(process as u64).as_str());
    name.append("-");
    name.append(to_hexadecimal(nanos as u64).as_str());
    name
}

/// What came of an attempt to create a directory.
#[derive(Debug, Clone, Copy, PartialEq, Eq, Structural)]
pub enum CreateEvent {
    Created,
    AlreadyExists,
    Failed,
}

/// What to do after an attempt to create a directory.
#[derive(Debug, Clone, Copy, PartialEq, Eq, Structural)]
pub enum CreateAction {
    /// The directory is there.
    Use,
    /// Try another name.
    Retry,
    /// Return the error of the attempt.
    Fail,
    /// Every attempt met a directory that was there before.
    GiveUp,
}

/// What to do after the given number of attempts, of which the last had the given
/// event.
pub fn after_attempt(attempts: u32, event: CreateEvent) -> (action: CreateAction)
    ensures
        action == match event {
            CreateEvent::Created => CreateAction::Use,
            CreateEvent::Failed => CreateAction::Fail,
            CreateEvent::AlreadyExists => if attempts < CREATE_ATTEMPTS {
                CreateAction::Retry
            } else {
                CreateAction::GiveUp
            },
        },
{
    match event {
        CreateEvent::Created => CreateAction::Use,
        CreateEvent::Failed => CreateAction::Fail,
        CreateEvent::AlreadyExists => if attempts < CREATE_ATTEMPTS {
            CreateAction::Retry
        } else {
            CreateAction::GiveUp
        },
    }
}

/// A file in a directory: its path, and its extension and the rest of its name as
/// far as they are text.
pub struct DirFile {
    pub path: PathBuf,
    pub extension: Option<String>,
    pub stem: Option<String>,
}

/// The number of a frame: the digits after the last underscore of the name, or the
/// whole name without one; 0 if that is no number.
pub open spec fn frame_number_of(stem: Option<Seq<char>>) -> int {
    match stem {
        Some(stem) => match number(after_last(stem, '_'), u64::MAX as int) {
            Some(n) => n,
            None => 0,
        },
        None => 0,
    }
}

/// The number of a frame.
pub fn frame_number(stem: Option<&str>) -> (n: u64)
    ensures
        n == frame_number_of(
            match stem {
                Some(stem) => Some(stem@),
                None => None,
            },
        ),
{
    match stem {
        Some(stem) => {
            let chars: Vec<char> = chars_of(stem);
            match parse(rest_after_last(chars.as_slice(), '_'), u64::MAX) {
                Some(n) => n,
                None => 0,
            }
        },
        None => 0,
    }
}

impl DirFile {
    /// The number of the file as a frame.
    pub open spec fn number(self) -> int {
        frame_number_of(
            match self.stem {
                Some(stem) => Some(stem@),
                None => None,
            },
        )
    }

    /// Whether the file is a PNG image.
    pub open spec fn is_png(self) -> bool {
        self.extension matches Some(e) && e@ == "png"@
    }
}

/// Where a frame with number `n` goes among frames in order: behind those with the
/// same number or a lower one.
pub open spec fn place(frames: Seq<DirFile>, n: int) -> int
    decreases frames.len(),
{
    if frames.len() == 0 || frames.last().number() <= n {
        frames.len() as int
    } else {
        place(frames.drop_last(), n)
    }
}

/// The PNG files among the first `count` files, in the order of their numbers. Files
/// with the same number stay in the order in which they were found.
pub open spec fn ordered(files: Seq<DirFile>, count: int) -> Seq<DirFile>
    decreases count,
{
    if count <= 0 {
        Seq::empty()
    } else {
        let before = ordered(files, count - 1);
        let file = files[count - 1];
        if file.is_png() {
            before.insert(place(before, file.number()), file)
        } else {
            before
        }
    }
}

/// The paths of files.
pub open spec fn paths(files: Seq<DirFile>) -> Seq<PathBuf> {
    files.map_values(|file: DirFile| file.path)
}

/// The frames of a video, in their order, and the directory that holds them.
pub struct ExtractedVideo {
    pub frames: Vec<PathBuf>,
    pub _temp: TempDir,
}

/// Why no frames could be extracted from a video.
#[derive(Debug)]
pub enum VideoError {
    /// `ffmpeg` failed; what it wrote to its two outputs.
    Ffmpeg { stderr: String, stdout: String },
    /// There are no frames.
    NoFrames { video: String },
}

impl VideoError {
    /// The text for the user.
    pub open spec fn text(self) -> Seq<char> {
        match self {
            VideoError::Ffmpeg { stderr, stdout } => "ffmpeg failed: "@ + stderr@ + "\n"@ + stdout@,
            VideoError::NoFrames { video } => "no frames extracted from "@ + video@,
        }
    }

    /// The text for the user.
    pub fn message(&self) -> (s: String)
        ensures
            s@ == self.text(),
    {
        match self {
            VideoError::Ffmpeg { stderr, stdout } => {
                let mut s: String = "ffmpeg failed: ".to_owned();
                s.append(stderr.as_str());
                s.append("\n");
                s.append(stdout.as_str());
                s
            },
            VideoError::NoFrames { video } => {
                "no frames extracted from ".to_owned().concat(video.as_str())
            },
        }
    }
}

/// Whether `ffmpeg` has done its work, from its exit status and its two outputs.
pub fn check_ffmpeg(success: bool, stderr: &[u8], stdout: &[u8]) -> (r: Result<(), VideoError>)
    ensures
        r is Ok <==> success,
        r matches Err(e) ==> {
            &&& e matches VideoError::Ffmpeg { stderr: err, stdout: out }
            &&& err@ == utf8_lossy(stderr@)
            &&& out@ == utf8_lossy(stdout@)
        },
{
    if success {
        Ok(())
    } else {
        Err(VideoError::Ffmpeg { stderr: decode_lossy(stderr), stdout: decode_lossy(stdout) })
    }
}

fn is_png_file(file: &DirFile) -> (r: bool)
    ensures
        r == file.is_png(),
{
    match &file.extension {
        Some(e) => {
            let chars: Vec<char> = chars_of(e.as_str());
            let png: Vec<char> = chars_of("png");
            equal(chars.as_slice(), png.as_slice())
        },
        None => false,
    }
}

proof fn lemma_place_bound(frames: Seq<DirFile>, n: int)
    ensures
        0 <= place(frames, n) <= frames.len(),
    decreases frames.len(),
{
    if frames.len() > 0 {
        lemma_place_bound(frames.drop_last(), n);
    }
}

/// The paths of the PNG files, in the order of their numbers.
fn order_frames(files: Vec<DirFile>) -> (frames: Vec<PathBuf>)
    ensures
        frames@ == paths(ordered(files@, files@.len() as int)),
{
    let mut frames: Vec<PathBuf> = Vec::new();
    let mut numbers: Vec<u64> = Vec::new();
    let ghost all = files@;
    assert(paths(ordered(all, 0)) =~= Seq::empty());
    for file in it: files
        invariant
            it.seq() == all,
            frames@ == paths(ordered(all, it.index())),
            numbers@.len() == ordered(all, it.index()).len(),
            forall|i: int|
                0 <= i < numbers@.len() ==> #[trigger] numbers@[i] == ordered(
                    all,
                    it.index(),
                )[i].number(),
    {
        let ghost before = ordered(all, it.index());
        if is_png_file(&file) {
            let n: u64 = match &file.stem {
                Some(stem) => frame_number(Some(stem.as_str())),
                None => frame_number(None),
            };
            assert(n == file.number());
            let mut at: usize = frames.len();
            assert(before.take(at as int) =~= before);
            while at > 0 && numbers[at - 1] > n
                invariant
                    at <= numbers@.len(),
                    numbers@.len() == before.len(),
                    forall|i: int|
                        0 <= i < numbers@.len() ==> #[trigger] numbers@[i] == before[i].number(),
                    place(before, n as int) == place(before.take(at as int), n as int),
                decreases at,
            {
                assert(before.take(at as int).drop_last() =~= before.take(at - 1));
                at = at - 1;
            }
            frames.insert(at, file.path);
            numbers.insert(at, n);
            assert(paths(before).insert(at as int, file.path) =~= paths(
                before.insert(at as int, file),
            ));
        }
    }
    frames
}

/// The frames that were extracted from `video`, among the files of the temporary
/// directory.
pub fn collect_frames(files: Vec<DirFile>, temp: TempDir, video: &str) -> (r: Result<
    ExtractedVideo,
    VideoError,
>)
    ensures
        r is Ok <==> exists|i: int| 0 <= i < files@.len() && (#[trigger] files@[i]).is_png(),
        r matches Ok(extracted) ==> {
            &&& extracted.frames@ == paths(ordered(files@, files@.len() as int))
            &&& extracted._temp == temp
        },
        r matches Err(e) ==> e matches VideoError::NoFrames { video: v } && v@ == video@,
{
    proof {
        lemma_ordered_empty(files@, files@.len() as int);
    }
    let frames: Vec<PathBuf> = order_frames(files);
    if frames.len() == 0 {
        return Err(VideoError::NoFrames { video: video.to_owned() });
    }
    Ok(ExtractedVideo { frames, _temp: temp })
}

proof fn lemma_ordered_empty(files: Seq<DirFile>, count: int)
    requires
        count <= files.len(),
    ensures
        ordered(files, count).len() > 0 <==> exists|i: int|
            0 <= i < count && (#[trigger] files[i]).is_png(),
    decreases count,
{
    if count > 0 {
        lemma_ordered_empty(files, count - 1);
        let before = ordered(files, count - 1);
        lemma_place_bound(before, files[count - 1].number());
        if before.len() > 0 {
            let i = choose|i: int| 0 <= i < count - 1 && (#[trigger] files[i]).is_png();
            assert(0 <= i < count && files[i].is_png());
        }
    }
}

/// In frames in order, those before the place of a number have the same number or a
/// lower one, and those from it on a higher one.
proof fn lemma_place(frames: Seq<DirFile>, n: int)
    requires
        forall|i: int, j: int|
            0 <= i <= j < frames.len() ==> (#[trigger] frames[i]).number() <= (
            #[trigger] frames[j]).number(),
    ensures
        0 <= place(frames, n) <= frames.len(),
        forall|i: int|
            0 <= i < place(frames, n) ==> (#[trigger] frames[i]).number() <= n,
        forall|i: int|
            place(frames, n) <= i < frames.len() ==> (#[trigger] frames[i]).number() > n,
    decreases frames.len(),
{
    if frames.len() > 0 && frames.last().number() > n {
        let init = frames.drop_last();
        lemma_place(init, n);
        assert forall|i: int| 0 <= i < place(frames, n) implies (#[trigger] frames[i]).number()
            <= n by {
            assert(init[i].number() <= n);
        }
        assert forall|i: int| place(frames, n) <= i < frames.len() implies (
        #[trigger] frames[i]).number() > n by {
            if i < init.len() {
                assert(init[i].number() > n);
            }
        }
    }
}

/// Frames come in the order of their numbers.
pub proof fn law_frames_are_in_order(files: Seq<DirFile>, count: int)
    requires
        count <= files.len(),
    ensures
        forall|i: int, j: int|
            0 <= i <= j < ordered(files, count).len() ==> (#[trigger] ordered(
                files,
                count,
            )[i]).number() <= (#[trigger] ordered(files, count)[j]).number(),
    decreases count,
{
    if count > 0 {
        law_frames_are_in_order(files, count - 1);
        lemma_place(ordered(files, count - 1), files[count - 1].number());
    }
}

/// Every PNG file is a frame, and files with the same number keep their order: for
/// each number, the frames with it are the PNG files with it.
pub proof fn law_frames_keep_files(files: Seq<DirFile>, n: int)
    ensures
        ordered(files, files.len() as int).filter(|f: DirFile| f.number() == n) == files.filter(
            |f: DirFile| f.is_png() && f.number() == n,
        ),
{
    lemma_frames_keep_files(files, files.len() as int, n);
    assert(files.take(files.len() as int) =~= files);
}

proof fn lemma_frames_keep_files(files: Seq<DirFile>, count: int, n: int)
    requires
        0 <= count <= files.len(),
    ensures
        ordered(files, count).filter(|f: DirFile| f.number() == n) == files.take(count).filter(
            |f: DirFile| f.is_png() && f.number() == n,
        ),
    decreases count,
{
    let wanted = |f: DirFile| f.number() == n;
    let found = |f: DirFile| f.is_png() && f.number() == n;
    reveal(Seq::filter);
    if count > 0 {
        let before = ordered(files, count - 1);
        let file = files[count - 1];
        lemma_frames_keep_files(files, count - 1, n);
        assert(files.take(count).drop_last() =~= files.take(count - 1));
        if file.is_png() {
            let at = place(before, file.number());
            law_frames_are_in_order(files, count - 1);
            lemma_place(before, file.number());
            let head = before.take(at);
            let tail = before.skip(at);
            assert(before =~= head + tail);
            assert(before.insert(at, file) =~= head.push(file) + tail);
            Seq::filter_distributes_over_add(head, tail, wanted);
            Seq::filter_distributes_over_add(head.push(file), tail, wanted);
            assert(head.push(file).drop_last() =~= head);
            if file.number() == n {
                assert forall|i: int| 0 <= i < tail.len() implies !wanted(#[trigger] tail[i]) by {
                    assert(before[at + i].number() > n);
                }
                lemma_filter_none(tail, wanted);
            }
        }
    }
}

proof fn lemma_filter_none(s: Seq<DirFile>, p: spec_fn(DirFile) -> bool)
    requires
        forall|i: int| 0 <= i < s.len() ==> !p(#[trigger] s[i]),
    ensures
        s.filter(p) == Seq::<DirFile>::empty(),
    decreases s.len(),
{
    reveal(Seq::filter);
    if s.len() > 0 {
        lemma_filter_none(s.drop_last(), p);
    }
}

/// The extension of a file name is what follows its last dot. A name without a dot, or with
/// one at its beginning only, has none.
pub proof fn law_name_has_its_extension(stem: Seq<char>, ext: Seq<char>)
    requires
        !ext.contains('.'),
    ensures
        stem.len() > 0 && !(stem == seq!['.'] && ext.len() == 0) ==> extension_of_name(
            stem.push('.') + ext,
        ) == Some(ext),
        extension_of_name(seq!['.'] + ext) is None,
        extension_of_name(ext) is None,
{
    let name = stem.push('.') + ext;
    law_rest_follows_the_last(stem, '.', ext);
    assert(name.skip((stem.len() + 1) as int) =~= ext);
    if name == seq!['.', '.'] {
        assert(stem.len() + 1 + ext.len() == 2);
        assert(name[0] == '.');
        if stem.len() == 1 {
            assert(stem =~= seq!['.']);
        }
    }
    law_rest_follows_the_last(Seq::empty(), '.', ext);
    assert(Seq::<char>::empty().push('.') + ext =~= seq!['.'] + ext);
    if ext == seq!['.', '.'] {
        assert(ext[0] == '.');
    }
}

/// The last component of a path is what follows its last slash, if that is a name; slashes
/// and single dots at the end do not count.
pub proof fn law_last_component(dir: Seq<char>, name: Seq<char>)
    requires
        name.len() > 0,
        name != seq!['.'],
        !name.contains('/'),
    ensures
        last_component(dir.push('/') + name) == Some(name),
        last_component(name) == Some(name),
        last_component(dir.push('/')) == last_component(dir),
        last_component(dir.push('/') + seq!['.']) == last_component(dir),
{
    law_rest_follows_the_last(dir, '/', name);
    let none = Seq::<char>::empty();
    law_rest_follows_the_last(dir, '/', none);
    assert(dir.push('/') + none =~= dir.push('/'));
    assert(dir.push('/').take(dir.len() as int) =~= dir);
    let dot = seq!['.'];
    assert(!dot.contains('/'));
    law_rest_follows_the_last(dir, '/', dot);
    assert((dir.push('/') + dot).take(dir.len() as int) =~= dir);
}

/// The extension of a file is what follows the last dot of its name, whatever directory it is
/// in.
pub proof fn law_file_has_its_extension(dir: Seq<char>, stem: Seq<char>, ext: Seq<char>)
    requires
        stem.len() > 0,
        stem != seq!['.'],
        !stem.contains('/'),
        !ext.contains('/'),
        !ext.contains('.'),
    ensures
        extension_of_path(dir.push('/') + (stem.push('.') + ext)) == Some(ext),
        extension_of_path(stem.push('.') + ext) == Some(ext),
{
    let name = stem.push('.') + ext;
    assert(!name.contains('/')) by {
        if name.contains('/') {
            let i = choose|i: int| 0 <= i < name.len() && name[i] == '/';
            if i < stem.len() {
                assert(stem.contains(stem[i]));
            } else if i > stem.len() {
                assert(ext.contains(ext[i - stem.len() - 1]));
            }
        }
    }
    assert(name.len() >= 2);
    law_last_component(dir, name);
    law_name_has_its_extension(stem, ext);
}

/// Whether a text has no slash, backslash or colon.
pub open spec fn is_plain(s: Seq<char>) -> bool {
    !s.contains('/') && !s.contains('\\') && !s.contains(':')
}

/// Whichever of slash, backslash and colon comes before a name with an extension, the last
/// extension is that of the name; so it is with slashes at the end.
pub proof fn law_last_extension(dir: Seq<char>, sep: char, stem: Seq<char>, ext: Seq<char>)
    requires
        sep == '/' || sep == '\\' || sep == ':',
        stem.len() > 0,
        stem != seq!['.'],
        is_plain(stem),
        is_plain(ext),
        !ext.contains('.'),
    ensures
        last_extension(dir.push(sep) + (stem.push('.') + ext)) == Some(ext),
        last_extension((dir.push(sep) + (stem.push('.') + ext)).push('/')) == Some(ext),
{
    let name = stem.push('.') + ext;
    let path = dir.push(sep) + name;
    assert(is_plain(name)) by {
        assert forall|i: int| 0 <= i < name.len() implies name[i] != '/' && name[i] != '\\'
            && name[i] != ':' by {
            if i < stem.len() {
                assert(stem.contains(stem[i]));
            } else if i > stem.len() {
                assert(ext.contains(ext[i - stem.len() - 1]));
            }
        }
    }
    let slash = Class::Only('/');
    assert(path.last() == name.last());
    assert(name.contains(name.last()));
    law_trimming_end(path, slash, path.len() as int);
    assert(path.take(path.len() as int) =~= path);
    let more = path.push('/');
    law_trimming_end(more, slash, path.len() as int);
    assert(more.take(path.len() as int) =~= path);
    lemma_last_part(path, dir, sep, name);
    law_name_has_its_extension(stem, ext);
}

/// The last part of a path is the plain name after its last separator.
proof fn lemma_last_part(path: Seq<char>, dir: Seq<char>, sep: char, name: Seq<char>)
    requires
        path == dir.push(sep) + name,
        sep == '/' || sep == '\\' || sep == ':',
        is_plain(name),
    ensures
        last_part(path) == name,
{
    lemma_after_last_keeps(dir, sep, name, '/');
    let a = after_last(path, '/');
    if a != name {
        let d1 = choose|d: Seq<char>| a == #[trigger] d.push(sep) + name;
        lemma_after_last_keeps(d1, sep, name, '\\');
        let b = after_last(a, '\\');
        if b != name {
            let d2 = choose|d: Seq<char>| b == #[trigger] d.push(sep) + name;
            lemma_after_last_keeps(d2, sep, name, ':');
        } else {
            law_rest_follows_the_last(d1, ':', name);
        }
    } else {
        law_rest_follows_the_last(dir, '\\', name);
        law_rest_follows_the_last(dir, ':', name);
    }
}

/// What follows the last of a character that a name does not have ends in the name, and in the
/// separator before it unless that is the character.
proof fn lemma_after_last_keeps(dir: Seq<char>, sep: char, name: Seq<char>, c: char)
    requires
        !name.contains(c),
    ensures
        sep == c ==> after_last(dir.push(sep) + name, c) == name,
        sep != c ==> exists|d: Seq<char>|
            after_last(dir.push(sep) + name, c) == #[trigger] d.push(sep) + name,
{
    let path = dir.push(sep) + name;
    law_rest_follows_the_last(dir, c, name);
    if sep != c {
        lemma_last_index_bound(path, c, path.len() as int);
        match last_index_of(path, c) {
            Some(i) => {
                assert(i < dir.len()) by {
                    if i > dir.len() {
                        assert(name.contains(name[i - dir.len() - 1]));
                    }
                }
                assert(path.skip(i + 1) =~= dir.skip(i + 1).push(sep) + name);
            },
            None => {},
        }
    }
}

/// A frame has the number that its name gives after the last underscore.
pub proof fn law_frame_has_its_number(before: Seq<char>, n: nat)
    requires
        n <= u64::MAX,
    ensures
        frame_number_of(Some(before.push('_') + decimal(n))) == n,
        frame_number_of(Some(decimal(n))) == n,
{
    let d = decimal(n);
    law_decimal_digits(n);
    assert(!d.contains('_')) by {
        if d.contains('_') {
            let i = choose|i: int| 0 <= i < d.len() && d[i] == '_';
            assert('0' <= d[i] <= '9');
        }
    }
    law_rest_follows_the_last(before, '_', d);
    law_decimal_is_read_back(n, u64::MAX as int);
}

/// The frames are the files whose extension is `png`, each once: as many of each number as
/// there are such files, in the order in which they were found.
pub proof fn law_frames_are_the_png_files(files: Seq<DirFile>, n: int)
    ensures
        ordered(files, files.len() as int).filter(|f: DirFile| f.number() == n) == files.filter(
            |f: DirFile| f.extension is Some && f.extension->0@ == "png"@ && f.number() == n,
        ),
        paths(ordered(files, files.len() as int)).len() == files.filter(
            |f: DirFile| f.extension is Some && f.extension->0@ == "png"@,
        ).len(),
{
    let found = |f: DirFile| f.is_png() && f.number() == n;
    let raw = |f: DirFile| f.extension is Some && f.extension->0@ == "png"@ && f.number() == n;
    law_frames_keep_files(files, n);
    lemma_same_filter(files, found, raw);
    lemma_frame_count(files, files.len() as int);
    assert(files.take(files.len() as int) =~= files);
}

proof fn lemma_same_filter(
    files: Seq<DirFile>,
    p: spec_fn(DirFile) -> bool,
    q: spec_fn(DirFile) -> bool,
)
    requires
        forall|f: DirFile| #[trigger] p(f) == q(f),
    ensures
        files.filter(p) == files.filter(q),
    decreases files.len(),
{
    reveal(Seq::filter);
    if files.len() > 0 {
        lemma_same_filter(files.drop_last(), p, q);
        let b = p(files.last());
    }
}

proof fn lemma_frame_count(files: Seq<DirFile>, count: int)
    requires
        0 <= count <= files.len(),
    ensures
        ordered(files, count).len() == files.take(count).filter(
            |f: DirFile| f.extension is Some && f.extension->0@ == "png"@,
        ).len(),
    decreases count,
{
    reveal(Seq::filter);
    if count > 0 {
        lemma_frame_count(files, count - 1);
        assert(files.take(count).drop_last() =~= files.take(count - 1));
        lemma_place_bound(ordered(files, count - 1), files[count - 1].number());
    }
}

/// Directories that one process makes at different times have different names.
pub proof fn law_names_differ_with_time(prefix: Seq<char>, process: u32, a: u32, b: u32)
    ensures
        temp_dir_name_of(prefix, process, a) == temp_dir_name_of(prefix, process, b) ==> a == b,
        temp_dir_name_of(prefix, process, a).take(prefix.len() as int) == prefix,
{
    let front = prefix + "-"@ + decimal(process as nat) + "-"@;
    let (x, y) = (temp_dir_name_of(prefix, process, a), temp_dir_name_of(prefix, process, b));
    assert(x.skip(front.len() as int) =~= hexadecimal(a as nat));
    assert(y.skip(front.len() as int) =~= hexadecimal(b as nat));
    law_hexadecimal_digits(a as nat);
    law_hexadecimal_digits(b as nat);
    assert(x.take(prefix.len() as int) =~= prefix);
}

/// A name whose last piece is no number has the number 0, and so has a file whose name is no
/// text.
pub proof fn law_other_names_have_number_zero(before: Seq<char>, piece: Seq<char>, i: int)
    requires
        !piece.contains('_'),
        0 <= i < piece.len(),
        !('0' <= piece[i] <= '9'),
        i > 0 || piece[0] != '+',
    ensures
        frame_number_of(Some(before.push('_') + piece)) == 0,
        frame_number_of(Some(piece)) == 0,
        frame_number_of(None) == 0,
{
    law_rest_follows_the_last(before, '_', piece);
    law_numbers_are_digits(piece, u64::MAX as int);
    assert(!('0' <= piece[i] <= '9' || i == 0 && piece[0] == '+'));
}

/// Ten extensions are those of videos, and no others.
pub proof fn law_videos_have_ten_extensions(e: Seq<char>)
    ensures
        video_extensions().contains(e) <==> {
            ||| e == "mp4"@
            ||| e == "mov"@
            ||| e == "avi"@
            ||| e == "mkv"@
            ||| e == "webm"@
            ||| e == "m4v"@
            ||| e == "ts"@
            ||| e == "mpeg"@
            ||| e == "mpg"@
            ||| e == "wmv"@
        },
{
    let all = video_extensions();
    assert(all[0] == "mp4"@ && all[1] == "mov"@ && all[2] == "avi"@ && all[3] == "mkv"@ && all[4]
        == "webm"@ && all[5] == "m4v"@ && all[6] == "ts"@ && all[7] == "mpeg"@ && all[8] == "mpg"@
        && all[9] == "wmv"@);
}

} // verus!
