//! Errors of HDF5 operations.

use vstd::prelude::*;

use crate::text::join;

verus! {

/// The error type for HDF5 operations.
#[derive(Debug)]
pub enum Error {
    /// An error of the engine, with a message.
    Internal(String),
    /// A structured error stack.
    HDF5(ErrorStack),
}

impl View for Error {
    type V = Seq<char>;

    /// The text that describes the error.
    open spec fn view(&self) -> Seq<char> {
        match *self {
            Error::Internal(msg) => msg@,
            Error::HDF5(stack) => stack.text(),
        }
    }
}

impl Clone for Error {
    fn clone(&self) -> (r: Self)
        ensures
            r@ == self@,
    {
        match self {
            Error::Internal(msg) => Error::Internal(msg.clone()),
            Error::HDF5(stack) => {
                let s = stack.clone();
                Error::HDF5(s)
            },
        }
    }
}

/// Whether an operation on bytes came out as `s` says: the same bytes, or an
/// error with the same text.
pub open spec fn same_bytes(r: Result<Vec<u8>, Error>, s: Result<Seq<u8>, Seq<char>>) -> bool {
    match (r, s) {
        (Ok(v), Ok(w)) => v@ == w,
        (Err(e), Err(m)) => e@ == m,
        _ => false,
    }
}

/// The bytes or the error text of an outcome.
pub open spec fn bytes_view(r: Result<Vec<u8>, Error>) -> Result<Seq<u8>, Seq<char>> {
    match r {
        Ok(v) => Ok(v@),
        Err(e) => Err(e@),
    }
}

/// Whether an operation without a value came out as `s` says.
pub open spec fn same_unit(r: Result<(), Error>, s: Result<(), Seq<char>>) -> bool {
    match (r, s) {
        (Ok(_), Ok(_)) => true,
        (Err(e), Err(m)) => e@ == m,
        _ => false,
    }
}

impl Error {
    /// An error that carries `msg`.
    pub fn new(msg: &str) -> (r: Self)
        ensures
            r@ == msg@,
            r is Internal,
    {
        Error::Internal(String::from_str(msg))
    }

    /// An error that carries the owned text `msg`.
    pub fn from_text(msg: String) -> (r: Self)
        ensures
            r@ == msg@,
            r is Internal,
    {
        Error::Internal(msg)
    }

    /// The pending error of the engine: there is never one.
    pub fn query() -> (r: Option<Self>)
        ensures
            r is None,
    {
        None
    }

    pub fn description(&self) -> (r: &str)
        ensures
            r@ == self@,
    {
        match self {
            Error::Internal(msg) => msg.as_str(),
            Error::HDF5(stack) => stack.description(),
        }
    }
}

/// What an [`ErrorFrame`] says.
pub struct FrameView {
    pub desc: Seq<char>,
    pub func: Seq<char>,
    pub major: Seq<char>,
    pub minor: Seq<char>,
}

/// A single frame of an error stack.
#[derive(Debug)]
pub struct ErrorFrame {
    desc: String,
    func: String,
    major: String,
    minor: String,
}

impl View for ErrorFrame {
    type V = FrameView;

    closed spec fn view(&self) -> FrameView {
        FrameView {
            desc: self.desc@,
            func: self.func@,
            major: self.major@,
            minor: self.minor@,
        }
    }
}

impl Clone for ErrorFrame {
    fn clone(&self) -> (r: Self)
        ensures
            r@ == self@,
    {
        ErrorFrame {
            desc: self.desc.clone(),
            func: self.func.clone(),
            major: self.major.clone(),
            minor: self.minor.clone(),
        }
    }
}

impl Default for ErrorFrame {
    fn default() -> (r: Self)
        ensures
            r@ == (FrameView {
                desc: Seq::empty(),
                func: Seq::empty(),
                major: Seq::empty(),
                minor: Seq::empty(),
            }),
    {
        ErrorFrame {
            desc: String::new(),
            func: String::new(),
            major: String::new(),
            minor: String::new(),
        }
    }
}

/// The long form of a frame: where the error occurred, what it is, and its
/// major and minor classification.
pub open spec fn frame_detail(f: FrameView) -> Seq<char> {
    "Error in "@ + f.func + "(): "@ + f.desc + " ["@ + f.major + ": "@ + f.minor + "]"@
}

impl ErrorFrame {
    pub fn new(desc: &str, func: &str, major: &str, minor: &str) -> (r: Self)
        ensures
            r@ == (FrameView { desc: desc@, func: func@, major: major@, minor: minor@ }),
    {
        ErrorFrame {
            desc: String::from_str(desc),
            func: String::from_str(func),
            major: String::from_str(major),
            minor: String::from_str(minor),
        }
    }

    pub fn desc(&self) -> (r: &str)
        ensures
            r@ == self@.desc,
    {
        self.desc.as_str()
    }

    pub fn description(&self) -> (r: &str)
        ensures
            r@ == self@.desc,
    {
        self.desc.as_str()
    }

    pub fn detail(&self) -> (r: Option<String>)
        ensures
            r matches Some(s) && s@ == frame_detail(self@),
    {
        let mut s = join("Error in ", self.func.as_str());
        s.append("(): ");
        s.append(self.desc.as_str());
        s.append(" [");
        s.append(self.major.as_str());
        s.append(": ");
        s.append(self.minor.as_str());
        s.append("]");
        Some(s)
    }
}

/// The frames of a stack, as views.
pub open spec fn frame_views(frames: Seq<ErrorFrame>) -> Seq<FrameView> {
    frames.map_values(|f: ErrorFrame| f@)
}

fn clone_frames(frames: &Vec<ErrorFrame>) -> (r: Vec<ErrorFrame>)
    ensures
        frame_views(r@) == frame_views(frames@),
{
    let mut out: Vec<ErrorFrame> = Vec::new();
    let mut i: usize = 0;
    while i < frames.len()
        invariant
            i <= frames.len(),
            out.len() == i,
            forall|k: int| 0 <= k < i ==> #[trigger] out@[k]@ == frames@[k]@,
        decreases frames.len() - i,
    {
        out.push(frames[i].clone());
        i += 1;
    }
    assert(frame_views(out@) =~= frame_views(frames@));
    out
}

/// A structured stack of error frames.
#[derive(Debug)]
pub struct ErrorStack {
    frames: Vec<ErrorFrame>,
    description: Option<String>,
}

impl View for ErrorStack {
    type V = Seq<FrameView>;

    closed spec fn view(&self) -> Seq<FrameView> {
        frame_views(self.frames@)
    }
}

impl Clone for ErrorStack {
    fn clone(&self) -> (r: Self)
        ensures
            r@ == self@,
            r.summary() == self.summary(),
    {
        let description = match &self.description {
            Some(d) => Some(d.clone()),
            None => None,
        };
        ErrorStack { frames: clone_frames(&self.frames), description }
    }
}

impl Default for ErrorStack {
    fn default() -> (r: Self)
        ensures
            r@ == Seq::<FrameView>::empty(),
            r.summary() is None,
    {
        let r = ErrorStack { frames: Vec::new(), description: None };
        assert(r@ =~= Seq::<FrameView>::empty());
        r
    }
}

impl ErrorStack {
    /// The description of the stack as a whole, where it has one.
    pub closed spec fn summary(self) -> Option<Seq<char>> {
        match self.description {
            Some(d) => Some(d@),
            None => None,
        }
    }

    /// The text that describes the stack: its summary, or else its last frame.
    pub open spec fn text(self) -> Seq<char> {
        match self.summary() {
            Some(d) => d,
            None => if self@.len() > 0 {
                self@.last().desc
            } else {
                "unknown error"@
            },
        }
    }

    pub fn new() -> (r: Self)
        ensures
            r@ == Seq::<FrameView>::empty(),
            r.summary() is None,
    {
        Self::default()
    }

    pub fn push(&mut self, frame: ErrorFrame)
        ensures
            final(self)@ == old(self)@.push(frame@),
            final(self).summary() == old(self).summary(),
    {
        self.frames.push(frame);
        assert(self@ =~= old(self)@.push(frame@));
    }

    pub fn is_empty(&self) -> (r: bool)
        ensures
            r == (self@.len() == 0),
    {
        self.frames.is_empty()
    }

    pub fn len(&self) -> (r: usize)
        ensures
            r == self@.len(),
    {
        self.frames.len()
    }

    pub fn top(&self) -> (r: Option<&ErrorFrame>)
        ensures
            r is None <==> self@.len() == 0,
            r matches Some(f) ==> f@ == self@[0],
    {
        if self.frames.len() == 0 {
            None
        } else {
            Some(&self.frames[0])
        }
    }

    pub fn description(&self) -> (r: &str)
        ensures
            r@ == self.text(),
    {
        match &self.description {
            Some(desc) => desc.as_str(),
            None => {
                let n: usize = self.frames.len();
                if n > 0 {
                    self.frames[n - 1].description()
                } else {
                    "unknown error"
                }
            },
        }
    }

    pub fn expand(&self) -> (r: ExpandedErrorStack)
        ensures
            r@ == self@,
    {
        ExpandedErrorStack { frames: clone_frames(&self.frames) }
    }
}

/// An expanded (human-readable) error stack.
#[derive(Debug)]
pub struct ExpandedErrorStack {
    frames: Vec<ErrorFrame>,
}

impl View for ExpandedErrorStack {
    type V = Seq<FrameView>;

    closed spec fn view(&self) -> Seq<FrameView> {
        frame_views(self.frames@)
    }
}

/// One line per frame: two blanks, the frame's number, and its long form.
pub open spec fn expanded_lines(frames: Seq<FrameView>) -> Seq<char>
    decreases frames.len(),
{
    if frames.len() == 0 {
        Seq::empty()
    } else {
        expanded_lines(frames.drop_last()) + "  "@ + crate::text::decimal(
            (frames.len() - 1) as nat,
        ) + ": "@ + frame_detail(frames.last()) + "\n"@
    }
}

impl ExpandedErrorStack {
    pub fn is_empty(&self) -> (r: bool)
        ensures
            r == (self@.len() == 0),
    {
        self.frames.is_empty()
    }

    pub fn len(&self) -> (r: usize)
        ensures
            r == self@.len(),
    {
        self.frames.len()
    }

    /// The stack as text, one line per frame.
    pub fn to_text(&self) -> (r: String)
        ensures
            r@ == expanded_lines(self@),
    {
        let mut out = String::new();
        let mut i: usize = 0;
        assert(self@.take(0) =~= Seq::<FrameView>::empty());
        while i < self.frames.len()
            invariant
                i <= self.frames.len(),
                out@ == expanded_lines(self@.take(i as int)),
            decreases self.frames.len() - i,
        {
            proof {
                assert(self@.take(i + 1).drop_last() =~= self@.take(i as int));
                assert(self@.take(i + 1).last() == self.frames@[i as int]@);
            }
            match self.frames[i].detail() {
                Some(detail) => {
                    out.append("  ");
                    let number = crate::text::decimal_string(i as u64);
                    out.append(number.as_str());
                    out.append(": ");
                    out.append(detail.as_str());
                    out.append("\n");
                },
                None => {},
            }
            i += 1;
        }
        assert(self@.take(i as int) =~= self@);
        out
    }
}

/// Silences the library's error output. The library prints nothing, so there
/// is nothing to silence.
pub fn silence_errors(_silence: bool) {
}

/// Forwards a result unchanged.
pub fn h5check<T>(value: Result<T, Error>) -> (r: Result<T, Error>)
    ensures
        r == value,
{
    value
}

/// Values that can carry an HDF5 error code.
pub trait H5ErrorCode: Copy {
    /// Whether the value is an error code.
    spec fn error_code(self) -> bool;

    fn is_err_code(value: Self) -> (r: bool)
        ensures
            r == value.error_code(),
    ;
}

impl H5ErrorCode for i64 {
    open spec fn error_code(self) -> bool {
        self < 0
    }

    fn is_err_code(value: Self) -> (r: bool) {
        value < 0
    }
}

impl H5ErrorCode for i32 {
    open spec fn error_code(self) -> bool {
        self < 0
    }

    fn is_err_code(value: Self) -> (r: bool) {
        value < 0
    }
}

/// Returns `true` if `value` represents an HDF5 error code.
pub fn is_err_code<T: H5ErrorCode>(value: T) -> (r: bool)
    ensures
        r == value.error_code(),
{
    T::is_err_code(value)
}

} // verus!
