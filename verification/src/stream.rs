//! Stream and location types of the dataflow model.
//!
//! A stream is either a file on some machine, an OS pipe between two nodes
//! of one partition, a TCP stream between two nodes on different machines,
//! or the calling process's terminal streams.
use vstd::prelude::*;

verus! {

/// Which machine a file lives on or a node executes at.
#[derive(Clone, Debug)]
pub enum Location {
    /// The machine the user typed the command on.
    Client,
    /// A server, named by its address.
    Server(String),
}

/// The mathematical value of a `Location`.
#[verifier::ext_equal]
pub enum LocationView {
    Client,
    Server(Seq<char>),
}

impl View for Location {
    type V = LocationView;

    open spec fn view(&self) -> LocationView {
        match self {
            Location::Client => LocationView::Client,
            Location::Server(ip) => LocationView::Server(ip@),
        }
    }
}

impl PartialEq for Location {
    fn eq(&self, other: &Self) -> (r: bool) {
        match (self, other) {
            (Location::Client, Location::Client) => true,
            (Location::Server(a), Location::Server(b)) => *a == *b,
            _ => false,
        }
    }
}

impl vstd::std_specs::cmp::PartialEqSpecImpl for Location {
    open spec fn obeys_eq_spec() -> bool {
        true
    }

    open spec fn eq_spec(&self, other: &Self) -> bool {
        self@ == other@
    }
}

impl Location {
    /// A structurally equal copy whose value the verifier knows.
    pub fn duplicate(&self) -> (r: Location)
        ensures
            r@ == self@,
    {
        match self {
            Location::Client => Location::Client,
            Location::Server(ip) => Location::Server(ip.clone()),
        }
    }

    /// True on the client location.
    pub fn is_client(&self) -> (r: bool)
        ensures
            r == (self@ == LocationView::Client),
    {
        match self {
            Location::Client => true,
            Location::Server(_) => false,
        }
    }
}

/// How a file stream will be opened.
#[derive(Clone, Copy, Debug, PartialEq, Eq, Structural)]
pub enum FileMode {
    Read,
    Write,
    Append,
}

/// Which standard stream of a node an edge carries.
#[derive(Clone, Copy, Debug, PartialEq, Eq, Structural)]
pub enum IOType {
    Stdin,
    Stdout,
    Stderr,
}

/// A file on a particular machine, together with its open mode.
#[derive(Clone, Debug, PartialEq)]
pub struct FileStream {
    pub path: String,
    pub mode: FileMode,
    pub location: Location,
}

/// The mathematical value of a `FileStream`.
#[verifier::ext_equal]
pub struct FileStreamView {
    pub path: Seq<char>,
    pub mode: FileMode,
    pub location: LocationView,
}

impl View for FileStream {
    type V = FileStreamView;

    open spec fn view(&self) -> FileStreamView {
        FileStreamView { path: self.path@, mode: self.mode, location: self.location@ }
    }
}

/// True when a path is absolute, so a parent directory is not prefixed.
pub open spec fn is_absolute_path(path: Seq<char>) -> bool {
    path.len() > 0 && path[0] == '/'
}

/// The path after resolving against a parent directory: relative paths are
/// prefixed with the parent and a separator, absolute paths and an empty
/// parent leave the path unchanged.
pub open spec fn resolved_path(parent: Seq<char>, path: Seq<char>) -> Seq<char> {
    if parent.len() == 0 || is_absolute_path(path) {
        path
    } else if parent[parent.len() - 1] == '/' {
        parent + path
    } else {
        parent + seq!['/'] + path
    }
}

/// Resolving against an empty parent changes no path.
pub proof fn lemma_resolved_path_empty(path: Seq<char>)
    ensures
        resolved_path(Seq::<char>::empty(), path) == path,
{
}

/// Resolving twice against the same absolute parent prefixes exactly once.
pub proof fn lemma_resolved_path_idempotent(parent: Seq<char>, path: Seq<char>)
    requires
        is_absolute_path(parent),
    ensures
        resolved_path(parent, resolved_path(parent, path)) == resolved_path(parent, path),
{
    if !is_absolute_path(path) {
        let once = resolved_path(parent, path);
        assert(once[0] == parent[0]);
    }
}

impl FileStream {
    /// A file stream for `path` at `location`, opened for reading.
    pub fn new(path: &str, location: Location) -> (r: FileStream)
        ensures
            r@ == (FileStreamView { path: path@, mode: FileMode::Read, location: location@ }),
    {
        FileStream { path: String::from_str(path), mode: FileMode::Read, location }
    }

    /// A file stream with an explicit mode.
    pub fn new_with_mode(path: &str, location: Location, mode: FileMode) -> (r: FileStream)
        ensures
            r@ == (FileStreamView { path: path@, mode, location: location@ }),
    {
        FileStream { path: String::from_str(path), mode, location }
    }

    /// A structurally equal copy whose value the verifier knows.
    pub fn duplicate(&self) -> (r: FileStream)
        ensures
            r@ == self@,
    {
        FileStream { path: self.path.clone(), mode: self.mode, location: self.location.duplicate() }
    }

    /// The file's path.
    pub fn get_name(&self) -> (r: String)
        ensures
            r@ == self@.path,
    {
        self.path.clone()
    }

    /// The machine the file lives on.
    pub fn get_location(&self) -> (r: Location)
        ensures
            r@ == self@.location,
    {
        self.location.duplicate()
    }

    /// Move the file to another machine.
    pub fn set_location(&mut self, location: Location)
        ensures
            final(self)@ == (FileStreamView { location: location@, ..old(self)@ }),
    {
        self.location = location;
    }

    /// The open mode.
    pub fn get_mode(&self) -> (r: FileMode)
        ensures
            r == self@.mode,
    {
        self.mode
    }

    /// Change the open mode.
    pub fn set_mode(&mut self, mode: FileMode)
        ensures
            final(self)@ == (FileStreamView { mode, ..old(self)@ }),
    {
        self.mode = mode;
    }

    /// Resolve a relative path against a parent directory.
    pub fn prepend_directory(&mut self, parent: &str)
        ensures
            final(self)@ == (FileStreamView {
                path: resolved_path(parent@, old(self)@.path),
                ..old(self)@
            }),
    {
        let plen = parent.unicode_len();
        if plen == 0 {
            return ;
        }
        let slen = self.path.as_str().unicode_len();
        if slen > 0 && self.path.as_str().get_char(0) == '/' {
            return ;
        }
        let mut s = String::from_str(parent);
        if parent.get_char(plen - 1) != '/' {
            s.append("/");
            proof {
                reveal_strlit("/");
                assert(s@ =~= parent@ + seq!['/']);
            }
        }
        s.append(self.path.as_str());
        proof {
            assert(s@ =~= resolved_path(parent@, self.path@));
        }
        self.path = s;
    }
}

/// An OS pipe between the standard streams of two nodes of one program.
#[derive(Clone, Copy, Debug, PartialEq, Eq, Structural)]
pub struct PipeStream {
    pub left: u32,
    pub right: u32,
    pub io: IOType,
}

impl PipeStream {
    /// A pipe from `left`'s `io` stream into `right`'s stdin.
    pub fn new(left: u32, right: u32, io: IOType) -> (r: PipeStream)
        ensures
            r == (PipeStream { left, right, io }),
    {
        PipeStream { left, right, io }
    }

    /// Which of the left node's output streams the pipe carries.
    pub fn get_output_type(&self) -> (r: IOType)
        ensures
            r == self.io,
    {
        self.io
    }
}

/// The TCP replacement for a pipe whose endpoints landed on different hosts.
#[derive(Clone, Debug, PartialEq)]
pub struct NetStream {
    pub left: u32,
    pub right: u32,
    pub io: IOType,
    pub sending_side: Location,
    pub receiving_side: Location,
}

/// The mathematical value of a `NetStream`.
#[verifier::ext_equal]
pub struct NetStreamView {
    pub left: u32,
    pub right: u32,
    pub io: IOType,
    pub sending_side: LocationView,
    pub receiving_side: LocationView,
}

impl View for NetStream {
    type V = NetStreamView;

    open spec fn view(&self) -> NetStreamView {
        NetStreamView {
            left: self.left,
            right: self.right,
            io: self.io,
            sending_side: self.sending_side@,
            receiving_side: self.receiving_side@,
        }
    }
}

impl NetStream {
    /// A TCP stream for the pipe `(left, right, io)` between two machines.
    pub fn new(
        left: u32,
        right: u32,
        io: IOType,
        sending_side: Location,
        receiving_side: Location,
    ) -> (r: NetStream)
        ensures
            r@ == (NetStreamView {
                left,
                right,
                io,
                sending_side: sending_side@,
                receiving_side: receiving_side@,
            }),
    {
        NetStream { left, right, io, sending_side, receiving_side }
    }

    /// A structurally equal copy whose value the verifier knows.
    pub fn duplicate(&self) -> (r: NetStream)
        ensures
            r@ == self@,
    {
        NetStream {
            left: self.left,
            right: self.right,
            io: self.io,
            sending_side: self.sending_side.duplicate(),
            receiving_side: self.receiving_side.duplicate(),
        }
    }

    /// The node the bytes come from.
    pub fn get_left(&self) -> (r: u32)
        ensures
            r == self@.left,
    {
        self.left
    }

    /// The node the bytes go to.
    pub fn get_right(&self) -> (r: u32)
        ensures
            r == self@.right,
    {
        self.right
    }

    /// Which output stream of the left node the bytes come from.
    pub fn get_output_type(&self) -> (r: IOType)
        ensures
            r == self@.io,
    {
        self.io
    }

    /// The machine that opens the connection and sends.
    pub fn get_sending_side(&self) -> (r: &Location)
        ensures
            r@ == self@.sending_side,
    {
        &self.sending_side
    }

    /// The machine that accepts the connection and receives.
    pub fn get_receiving_side(&self) -> (r: &Location)
        ensures
            r@ == self@.receiving_side,
    {
        &self.receiving_side
    }
}

/// Any stream a node's standard streams can be wired to.
#[derive(Clone, Debug, PartialEq)]
pub enum DashStream {
    /// Bytes read from or written to a file.
    File(FileStream),
    /// An OS pipe within one partition.
    Pipe(PipeStream),
    /// A TCP stream between partitions.
    Tcp(NetStream),
    /// The calling process's stdout.
    Stdout,
    /// The calling process's stderr.
    Stderr,
}

/// The mathematical value of a `DashStream`.
#[verifier::ext_equal]
pub enum DashStreamView {
    File(FileStreamView),
    Pipe(PipeStream),
    Tcp(NetStreamView),
    Stdout,
    Stderr,
}

impl View for DashStream {
    type V = DashStreamView;

    open spec fn view(&self) -> DashStreamView {
        match self {
            DashStream::File(fs) => DashStreamView::File(fs@),
            DashStream::Pipe(p) => DashStreamView::Pipe(*p),
            DashStream::Tcp(n) => DashStreamView::Tcp(n@),
            DashStream::Stdout => DashStreamView::Stdout,
            DashStream::Stderr => DashStreamView::Stderr,
        }
    }
}

impl DashStream {
    /// A structurally equal copy whose value the verifier knows.
    pub fn duplicate(&self) -> (r: DashStream)
        ensures
            r@ == self@,
    {
        match self {
            DashStream::File(fs) => DashStream::File(fs.duplicate()),
            DashStream::Pipe(p) => DashStream::Pipe(*p),
            DashStream::Tcp(n) => DashStream::Tcp(n.duplicate()),
            DashStream::Stdout => DashStream::Stdout,
            DashStream::Stderr => DashStream::Stderr,
        }
    }
}

/// True of streams that back a graph edge: a pipe or its TCP replacement.
pub open spec fn is_edge_stream(d: DashStreamView) -> bool {
    d is Pipe || d is Tcp
}

/// The producing node of an edge-backing stream.
pub open spec fn edge_stream_left(d: DashStreamView) -> u32 {
    match d {
        DashStreamView::Pipe(p) => p.left,
        DashStreamView::Tcp(n) => n.left,
        _ => 0,
    }
}

/// The consuming node of an edge-backing stream.
pub open spec fn edge_stream_right(d: DashStreamView) -> u32 {
    match d {
        DashStreamView::Pipe(p) => p.right,
        DashStreamView::Tcp(n) => n.right,
        _ => 0,
    }
}

/// The IO type an edge-backing stream carries.
pub open spec fn edge_stream_io(d: DashStreamView) -> IOType {
    match d {
        DashStreamView::Pipe(p) => p.io,
        DashStreamView::Tcp(n) => n.io,
        _ => IOType::Stdin,
    }
}

/// The key under which an OS pipe end is registered in the shared pipe
/// map, so that the endpoint node can retrieve it during redirection.
#[derive(Clone, Copy, Debug, PartialEq, Eq, Structural)]
pub struct HandleIdentifier {
    pub prog_id: u32,
    pub node_id: u32,
    pub iotype: IOType,
}

impl HandleIdentifier {
    /// The handle key for one endpoint of a pipe.
    pub fn new(prog_id: u32, node_id: u32, iotype: IOType) -> (r: HandleIdentifier)
        ensures
            r == (HandleIdentifier { prog_id, node_id, iotype }),
    {
        HandleIdentifier { prog_id, node_id, iotype }
    }
}

} // verus!
