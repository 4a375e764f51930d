//! The three node kinds of a dataflow program.
//!
//! A command node spawns a subprocess; a read node copies one file onto
//! one pipe or TCP stream; a write node copies its pipe or TCP inputs
//! onto files or the terminal.  The kinds are closed: a program element
//! is the tagged union of the three.
use crate::errors::Error;
use crate::stream::DashStream;
use crate::stream::DashStreamView;
use crate::stream::FileStream;
use crate::stream::FileStreamView;
use crate::stream::IOType;
use crate::stream::Location;
use crate::stream::LocationView;
use crate::stream::NetStream;
use crate::stream::PipeStream;
use crate::stream::is_edge_stream;
use crate::stream::resolved_path;
use vstd::prelude::*;

verus! {

/// One argument of a command: a literal word, or a path that resolves
/// against the machine's working directory.
#[derive(Clone, Debug, PartialEq)]
pub enum NodeArg {
    Str(String),
    Stream(FileStream),
}

/// The mathematical value of a `NodeArg`.
#[verifier::ext_equal]
pub enum NodeArgView {
    Str(Seq<char>),
    Stream(FileStreamView),
}

impl View for NodeArg {
    type V = NodeArgView;

    open spec fn view(&self) -> NodeArgView {
        match self {
            NodeArg::Str(s) => NodeArgView::Str(s@),
            NodeArg::Stream(fs) => NodeArgView::Stream(fs@),
        }
    }
}

/// The views of a vector of streams.
pub open spec fn streams_view(v: Seq<DashStream>) -> Seq<DashStreamView> {
    v.map_values(|s: DashStream| s@)
}

/// The views of a vector of arguments.
pub open spec fn args_view(v: Seq<NodeArg>) -> Seq<NodeArgView> {
    v.map_values(|a: NodeArg| a@)
}

/// A stream after resolving the paths of its files against a parent
/// directory; non-file streams are unchanged.
pub open spec fn resolved_stream(parent: Seq<char>, d: DashStreamView) -> DashStreamView {
    match d {
        DashStreamView::File(fs) => DashStreamView::File(
            FileStreamView { path: resolved_path(parent, fs.path), ..fs },
        ),
        _ => d,
    }
}

/// Every stream of a list, resolved.
pub open spec fn resolved_streams(parent: Seq<char>, v: Seq<DashStreamView>) -> Seq<
    DashStreamView,
> {
    v.map_values(|d: DashStreamView| resolved_stream(parent, d))
}

/// An argument after resolving; literal words are unchanged.
pub open spec fn resolved_arg(parent: Seq<char>, a: NodeArgView) -> NodeArgView {
    match a {
        NodeArgView::Stream(fs) => NodeArgView::Stream(
            FileStreamView { path: resolved_path(parent, fs.path), ..fs },
        ),
        NodeArgView::Str(s) => NodeArgView::Str(s),
    }
}

/// Every argument of a list, resolved.
pub open spec fn resolved_args(parent: Seq<char>, v: Seq<NodeArgView>) -> Seq<NodeArgView> {
    v.map_values(|a: NodeArgView| resolved_arg(parent, a))
}

/// A node that spawns a subprocess and wires its standard streams.
#[derive(Clone, Debug, PartialEq)]
pub struct CommandNode {
    pub node_id: u32,
    pub prog_id: u32,
    pub name: String,
    pub args: Vec<NodeArg>,
    pub stdin: Vec<DashStream>,
    pub stdout: Vec<DashStream>,
    pub stderr: Vec<DashStream>,
    pub location: Location,
}

/// The mathematical value of a `CommandNode`.
#[verifier::ext_equal]
pub struct CommandNodeView {
    pub node_id: u32,
    pub prog_id: u32,
    pub name: Seq<char>,
    pub args: Seq<NodeArgView>,
    pub stdin: Seq<DashStreamView>,
    pub stdout: Seq<DashStreamView>,
    pub stderr: Seq<DashStreamView>,
    pub location: LocationView,
}

impl View for CommandNode {
    type V = CommandNodeView;

    open spec fn view(&self) -> CommandNodeView {
        CommandNodeView {
            node_id: self.node_id,
            prog_id: self.prog_id,
            name: self.name@,
            args: args_view(self.args@),
            stdin: streams_view(self.stdin@),
            stdout: streams_view(self.stdout@),
            stderr: streams_view(self.stderr@),
            location: self.location@,
        }
    }
}

/// A node that copies one file onto one pipe or TCP stream.
#[derive(Clone, Debug, PartialEq)]
pub struct ReadNode {
    pub node_id: u32,
    pub prog_id: u32,
    pub input: FileStream,
    pub stdout: Option<DashStream>,
    pub location: Location,
}

/// The mathematical value of a `ReadNode`.
#[verifier::ext_equal]
pub struct ReadNodeView {
    pub node_id: u32,
    pub prog_id: u32,
    pub input: FileStreamView,
    pub stdout: Option<DashStreamView>,
    pub location: LocationView,
}

impl View for ReadNode {
    type V = ReadNodeView;

    open spec fn view(&self) -> ReadNodeView {
        ReadNodeView {
            node_id: self.node_id,
            prog_id: self.prog_id,
            input: self.input@,
            stdout: match self.stdout {
                Some(s) => Some(s@),
                None => None,
            },
            location: self.location@,
        }
    }
}

/// A node that copies its pipe or TCP inputs onto files or the terminal.
#[derive(Clone, Debug, PartialEq)]
pub struct WriteNode {
    pub node_id: u32,
    pub prog_id: u32,
    pub stdin: Vec<DashStream>,
    pub output: Vec<DashStream>,
    pub location: Location,
}

/// The mathematical value of a `WriteNode`.
#[verifier::ext_equal]
pub struct WriteNodeView {
    pub node_id: u32,
    pub prog_id: u32,
    pub stdin: Seq<DashStreamView>,
    pub output: Seq<DashStreamView>,
    pub location: LocationView,
}

impl View for WriteNode {
    type V = WriteNodeView;

    open spec fn view(&self) -> WriteNodeView {
        WriteNodeView {
            node_id: self.node_id,
            prog_id: self.prog_id,
            stdin: streams_view(self.stdin@),
            output: streams_view(self.output@),
            location: self.location@,
        }
    }
}

/// One node of a program: the closed union of the three kinds.
#[derive(Clone, Debug, PartialEq)]
pub enum Elem {
    Cmd(CommandNode),
    Read(ReadNode),
    Write(WriteNode),
}

/// The mathematical value of an `Elem`.
#[verifier::ext_equal]
pub enum ElemView {
    Cmd(CommandNodeView),
    Read(ReadNodeView),
    Write(WriteNodeView),
}

impl View for Elem {
    type V = ElemView;

    open spec fn view(&self) -> ElemView {
        match self {
            Elem::Cmd(c) => ElemView::Cmd(c@),
            Elem::Read(r) => ElemView::Read(r@),
            Elem::Write(w) => ElemView::Write(w@),
        }
    }
}

/// The node's id within its program.
pub open spec fn elem_id(e: ElemView) -> u32 {
    match e {
        ElemView::Cmd(c) => c.node_id,
        ElemView::Read(r) => r.node_id,
        ElemView::Write(w) => w.node_id,
    }
}

/// The node's execution location.
pub open spec fn elem_loc(e: ElemView) -> LocationView {
    match e {
        ElemView::Cmd(c) => c.location,
        ElemView::Read(r) => r.location,
        ElemView::Write(w) => w.location,
    }
}

/// The edge-backing streams the node consumes: its pipe or TCP inputs.
/// A read node's file input is not a graph edge.
pub open spec fn in_streams(e: ElemView) -> Seq<DashStreamView> {
    match e {
        ElemView::Cmd(c) => c.stdin,
        ElemView::Read(r) => Seq::empty(),
        ElemView::Write(w) => w.stdin,
    }
}

/// The edge-backing streams the node produces: its pipe or TCP outputs.
/// A write node's file or terminal outputs are not graph edges.
pub open spec fn out_streams(e: ElemView) -> Seq<DashStreamView> {
    match e {
        ElemView::Cmd(c) => c.stdout + c.stderr,
        ElemView::Read(r) => match r.stdout {
            Some(s) => seq![s],
            None => Seq::empty(),
        },
        ElemView::Write(w) => Seq::empty(),
    }
}

impl CommandNode {
    /// An empty command node: no name, no arguments, no streams, at the
    /// client.
    pub fn make() -> (r: CommandNode)
        ensures
            r@ == (CommandNodeView {
                node_id: 0,
                prog_id: 0,
                name: Seq::<char>::empty(),
                args: Seq::<NodeArgView>::empty(),
                stdin: Seq::<DashStreamView>::empty(),
                stdout: Seq::<DashStreamView>::empty(),
                stderr: Seq::<DashStreamView>::empty(),
                location: LocationView::Client,
            }),
    {
        let r = CommandNode {
            node_id: 0,
            prog_id: 0,
            name: String::new(),
            args: Vec::new(),
            stdin: Vec::new(),
            stdout: Vec::new(),
            stderr: Vec::new(),
            location: Location::Client,
        };
        proof {
            assert(r@.args =~= Seq::<NodeArgView>::empty());
            assert(r@.stdin =~= Seq::<DashStreamView>::empty());
            assert(r@.stdout =~= Seq::<DashStreamView>::empty());
            assert(r@.stderr =~= Seq::<DashStreamView>::empty());
        }
        r
    }

    /// True once a name has been set.
    pub fn name_set(&self) -> (r: bool)
        ensures
            r == (self@.name.len() > 0),
    {
        self.name.as_str().unicode_len() > 0
    }

    /// Set the program name.
    pub fn set_name(&mut self, name: &str)
        ensures
            final(self)@ == (CommandNodeView { name: name@, ..old(self)@ }),
    {
        self.name = String::from_str(name);
    }

    /// Append one argument.
    pub fn add_arg(&mut self, arg: NodeArg)
        ensures
            final(self)@ == (CommandNodeView {
                args: old(self)@.args.push(arg@),
                ..old(self)@
            }),
    {
        let ghost prior = self@.args;
        self.args.push(arg);
        proof {
            assert(self@.args =~= prior.push(self.args@.last()@));
        }
    }

    /// A structurally equal copy whose value the verifier knows.
    pub fn duplicate(&self) -> (r: CommandNode)
        ensures
            r@ == self@,
    {
        let mut args: Vec<NodeArg> = Vec::new();
        let mut i: usize = 0;
        while i < self.args.len()
            invariant
                i <= self.args.len(),
                args@.len() == i,
                forall|j: int| 0 <= j < i ==> args@[j]@ == self.args@[j]@,
            decreases self.args.len() - i,
        {
            let a = match &self.args[i] {
                NodeArg::Str(s) => NodeArg::Str(s.clone()),
                NodeArg::Stream(fs) => NodeArg::Stream(fs.duplicate()),
            };
            args.push(a);
            i = i + 1;
        }
        let r = CommandNode {
            node_id: self.node_id,
            prog_id: self.prog_id,
            name: self.name.clone(),
            args,
            stdin: duplicate_streams(&self.stdin),
            stdout: duplicate_streams(&self.stdout),
            stderr: duplicate_streams(&self.stderr),
            location: self.location.duplicate(),
        };
        proof {
            assert(args_view(args@) =~= args_view(self.args@));
        }
        r
    }
}

/// A copy of a stream vector whose views the verifier knows element-wise.
pub fn duplicate_streams(v: &Vec<DashStream>) -> (r: Vec<DashStream>)
    ensures
        streams_view(r@) == streams_view(v@),
{
    let mut r: Vec<DashStream> = Vec::new();
    let mut i: usize = 0;
    while i < v.len()
        invariant
            i <= v.len(),
            r@.len() == i,
            forall|j: int| 0 <= j < i ==> r@[j]@ == v@[j]@,
        decreases v.len() - i,
    {
        r.push(v[i].duplicate());
        i = i + 1;
    }
    proof {
        assert(streams_view(r@) =~= streams_view(v@));
    }
    r
}

impl ReadNode {
    /// A read node with no input file chosen yet, at the client.
    pub fn make() -> (r: ReadNode)
        ensures
            r@ == (ReadNodeView {
                node_id: 0,
                prog_id: 0,
                input: FileStreamView {
                    path: Seq::<char>::empty(),
                    mode: crate::stream::FileMode::Read,
                    location: LocationView::Client,
                },
                stdout: None,
                location: LocationView::Client,
            }),
    {
        proof {
            reveal_strlit("");
        }
        ReadNode {
            node_id: 0,
            prog_id: 0,
            input: FileStream::new("", Location::Client),
            stdout: None,
            location: Location::Client,
        }
    }

    /// The machine the input file lives on.
    pub fn get_input_location(&self) -> (r: Location)
        ensures
            r@ == self@.input.location,
    {
        self.input.get_location()
    }

    /// Set the input file.  Only a file stream can feed a read node.
    pub fn add_stdin(&mut self, stream: DashStream) -> (r: Result<(), Error>)
        ensures
            match r {
                Ok(()) => old(self)@.stdout == final(self)@.stdout && (match stream@ {
                    DashStreamView::File(fs) => final(self)@ == (ReadNodeView {
                        input: fs,
                        ..old(self)@
                    }),
                    _ => false,
                }),
                Err(e) => e == Error::InvalidRedirection && !(stream@ is File) && *final(self) == *old(self),
            },
    {
        match stream {
            DashStream::File(fs) => {
                self.input = fs;
                Ok(())
            },
            _ => Err(Error::InvalidRedirection),
        }
    }

    /// Set the single output.  It must be a pipe or a TCP stream.
    pub fn set_stdout(&mut self, stream: DashStream) -> (r: Result<(), Error>)
        ensures
            match r {
                Ok(()) => is_edge_stream(stream@) && final(self)@ == (ReadNodeView {
                    stdout: Some(stream@),
                    ..old(self)@
                }),
                Err(e) => e == Error::InvalidRedirection && !is_edge_stream(stream@) && *final(self) == *old(self),
            },
    {
        match &stream {
            DashStream::Pipe(_) => {
                self.stdout = Some(stream);
                Ok(())
            },
            DashStream::Tcp(_) => {
                self.stdout = Some(stream);
                Ok(())
            },
            _ => Err(Error::InvalidRedirection),
        }
    }

    /// The single output stream, if one has been set.
    pub fn get_stdout(&self) -> (r: Option<DashStream>)
        ensures
            match r {
                Some(s) => self@.stdout == Some(s@),
                None => self@.stdout is None,
            },
    {
        match &self.stdout {
            Some(s) => Some(s.duplicate()),
            None => None,
        }
    }

    /// A structurally equal copy whose value the verifier knows.
    pub fn duplicate(&self) -> (r: ReadNode)
        ensures
            r@ == self@,
    {
        ReadNode {
            node_id: self.node_id,
            prog_id: self.prog_id,
            input: self.input.duplicate(),
            stdout: match &self.stdout {
                Some(s) => Some(s.duplicate()),
                None => None,
            },
            location: self.location.duplicate(),
        }
    }
}

impl WriteNode {
    /// A write node with no streams, at the client.
    pub fn make() -> (r: WriteNode)
        ensures
            r@ == (WriteNodeView {
                node_id: 0,
                prog_id: 0,
                stdin: Seq::<DashStreamView>::empty(),
                output: Seq::<DashStreamView>::empty(),
                location: LocationView::Client,
            }),
    {
        let r = WriteNode {
            node_id: 0,
            prog_id: 0,
            stdin: Vec::new(),
            output: Vec::new(),
            location: Location::Client,
        };
        proof {
            assert(r@.stdin =~= Seq::<DashStreamView>::empty());
            assert(r@.output =~= Seq::<DashStreamView>::empty());
        }
        r
    }

    /// Append one input.  It must be a pipe or a TCP stream.
    pub fn add_stdin(&mut self, stream: DashStream) -> (r: Result<(), Error>)
        ensures
            match r {
                Ok(()) => is_edge_stream(stream@) && final(self)@ == (WriteNodeView {
                    stdin: old(self)@.stdin.push(stream@),
                    ..old(self)@
                }),
                Err(e) => e == Error::InvalidRedirection && !is_edge_stream(stream@) && *final(self) == *old(self),
            },
    {
        match &stream {
            DashStream::Pipe(_) | DashStream::Tcp(_) => {
                let ghost prior = self@.stdin;
                self.stdin.push(stream);
                proof {
                    assert(self@.stdin =~= prior.push(self.stdin@.last()@));
                }
                Ok(())
            },
            _ => Err(Error::InvalidRedirection),
        }
    }

    /// Append one file output.  Only a file stream may be added here;
    /// the terminal sinks are attached through `set_stdout`, which the
    /// frontend's terminator rule uses.
    pub fn add_stdout(&mut self, stream: DashStream) -> (r: Result<(), Error>)
        ensures
            match r {
                Ok(()) => stream@ is File && final(self)@ == (WriteNodeView {
                    output: old(self)@.output.push(stream@),
                    ..old(self)@
                }),
                Err(e) => e == Error::InvalidRedirection && !(stream@ is File) && *final(self)
                    == *old(self),
            },
    {
        match &stream {
            DashStream::File(_) => {
                let ghost prior = self@.output;
                self.output.push(stream);
                proof {
                    assert(self@.output =~= prior.push(self.output@.last()@));
                }
                Ok(())
            },
            _ => Err(Error::InvalidRedirection),
        }
    }

    /// A write node has no stderr of its own: its only readable side
    /// is stdin, and its outputs are all attached as stdout.
    pub fn add_stderr(&mut self, _stream: DashStream) -> (r: Result<(), Error>)
        ensures
            r == Result::<(), Error>::Err(Error::InvalidRedirection),
            *final(self) == *old(self),
    {
        Err(Error::InvalidRedirection)
    }

    /// Append one output sink: a file or one of the calling process's
    /// terminal streams.  This carries the write node's whole output
    /// role: the terminators the frontend adds for unredirected stdout
    /// and stderr go through here.
    pub fn set_stdout(&mut self, stream: DashStream) -> (r: Result<(), Error>)
        ensures
            match r {
                Ok(()) => !is_edge_stream(stream@) && final(self)@ == (WriteNodeView {
                    output: old(self)@.output.push(stream@),
                    ..old(self)@
                }),
                Err(e) => e == Error::InvalidRedirection && is_edge_stream(stream@) && *final(self) == *old(self),
            },
    {
        match &stream {
            DashStream::File(_) | DashStream::Stdout | DashStream::Stderr => {
                let ghost prior = self@.output;
                self.output.push(stream);
                proof {
                    assert(self@.output =~= prior.push(self.output@.last()@));
                }
                Ok(())
            },
            _ => Err(Error::InvalidRedirection),
        }
    }

    /// A structurally equal copy whose value the verifier knows.
    pub fn duplicate(&self) -> (r: WriteNode)
        ensures
            r@ == self@,
    {
        WriteNode {
            node_id: self.node_id,
            prog_id: self.prog_id,
            stdin: duplicate_streams(&self.stdin),
            output: duplicate_streams(&self.output),
            location: self.location.duplicate(),
        }
    }
}


/// The node with its id and owning program changed.
pub open spec fn with_ids(e: ElemView, node_id: u32, prog_id: u32) -> ElemView {
    match e {
        ElemView::Cmd(c) => ElemView::Cmd(CommandNodeView { node_id, prog_id, ..c }),
        ElemView::Read(r) => ElemView::Read(ReadNodeView { node_id, prog_id, ..r }),
        ElemView::Write(w) => ElemView::Write(WriteNodeView { node_id, prog_id, ..w }),
    }
}

/// The node with its execution location changed.
pub open spec fn with_loc(e: ElemView, location: LocationView) -> ElemView {
    match e {
        ElemView::Cmd(c) => ElemView::Cmd(CommandNodeView { location, ..c }),
        ElemView::Read(r) => ElemView::Read(ReadNodeView { location, ..r }),
        ElemView::Write(w) => ElemView::Write(WriteNodeView { location, ..w }),
    }
}

/// Whether the node can produce one more edge stream of this IO type.
/// A command writes on stdout or stderr; a read node has a single stdout
/// slot; a write node produces no edge streams.
pub open spec fn can_attach_out(e: ElemView, io: IOType) -> bool {
    match e {
        ElemView::Cmd(_) => io != IOType::Stdin,
        ElemView::Read(r) => io == IOType::Stdout && r.stdout is None,
        ElemView::Write(_) => false,
    }
}

/// Whether the node can consume one more edge stream.  Read nodes take
/// their input from a file, never from an edge.
pub open spec fn can_attach_in(e: ElemView) -> bool {
    match e {
        ElemView::Cmd(_) => true,
        ElemView::Read(_) => false,
        ElemView::Write(_) => true,
    }
}

/// The node after an edge stream is added to its outputs.
pub open spec fn attach_out(e: ElemView, s: DashStreamView, io: IOType) -> ElemView {
    match e {
        ElemView::Cmd(c) => if io == IOType::Stderr {
            ElemView::Cmd(CommandNodeView { stderr: c.stderr.push(s), ..c })
        } else {
            ElemView::Cmd(CommandNodeView { stdout: c.stdout.push(s), ..c })
        },
        ElemView::Read(r) => ElemView::Read(ReadNodeView { stdout: Some(s), ..r }),
        ElemView::Write(_) => e,
    }
}

/// The node after an edge stream is added to its inputs.
pub open spec fn attach_in(e: ElemView, s: DashStreamView) -> ElemView {
    match e {
        ElemView::Cmd(c) => ElemView::Cmd(CommandNodeView { stdin: c.stdin.push(s), ..c }),
        ElemView::Read(_) => e,
        ElemView::Write(w) => ElemView::Write(WriteNodeView { stdin: w.stdin.push(s), ..w }),
    }
}

/// The node after resolving every file path it holds against a parent
/// directory.
pub open spec fn resolved_elem(parent: Seq<char>, e: ElemView) -> ElemView {
    match e {
        ElemView::Cmd(c) => ElemView::Cmd(
            CommandNodeView {
                args: resolved_args(parent, c.args),
                stdin: resolved_streams(parent, c.stdin),
                stdout: resolved_streams(parent, c.stdout),
                stderr: resolved_streams(parent, c.stderr),
                ..c
            },
        ),
        ElemView::Read(r) => ElemView::Read(
            ReadNodeView {
                input: FileStreamView { path: resolved_path(parent, r.input.path), ..r.input },
                stdout: match r.stdout {
                    Some(s) => Some(resolved_stream(parent, s)),
                    None => None,
                },
                ..r
            },
        ),
        ElemView::Write(w) => ElemView::Write(
            WriteNodeView {
                stdin: resolved_streams(parent, w.stdin),
                output: resolved_streams(parent, w.output),
                ..w
            },
        ),
    }
}

/// One stream, resolved against a parent directory.
pub fn resolve_stream(s: &DashStream, parent: &str) -> (r: DashStream)
    ensures
        r@ == resolved_stream(parent@, s@),
{
    match s {
        DashStream::File(fs) => {
            let mut copy = fs.duplicate();
            copy.prepend_directory(parent);
            DashStream::File(copy)
        },
        _ => s.duplicate(),
    }
}

/// Every stream of a vector, resolved against a parent directory.
pub fn resolve_stream_vec(v: &Vec<DashStream>, parent: &str) -> (r: Vec<DashStream>)
    ensures
        streams_view(r@) == resolved_streams(parent@, streams_view(v@)),
{
    let mut r: Vec<DashStream> = Vec::new();
    let mut i: usize = 0;
    while i < v.len()
        invariant
            i <= v.len(),
            r@.len() == i,
            forall|j: int| 0 <= j < i ==> r@[j]@ == resolved_stream(parent@, v@[j]@),
        decreases v.len() - i,
    {
        r.push(resolve_stream(&v[i], parent));
        i = i + 1;
    }
    proof {
        assert(streams_view(r@) =~= resolved_streams(parent@, streams_view(v@)));
    }
    r
}

impl Elem {
    /// The node's id within its program.
    pub fn get_id(&self) -> (r: u32)
        ensures
            r == elem_id(self@),
    {
        match self {
            Elem::Cmd(c) => c.node_id,
            Elem::Read(r) => r.node_id,
            Elem::Write(w) => w.node_id,
        }
    }

    /// Set the node's id and owning program id.
    pub fn set_ids(&mut self, node_id: u32, prog_id: u32)
        ensures
            final(self)@ == with_ids(old(self)@, node_id, prog_id),
    {
        match self {
            Elem::Cmd(c) => {
                c.node_id = node_id;
                c.prog_id = prog_id;
            },
            Elem::Read(r) => {
                r.node_id = node_id;
                r.prog_id = prog_id;
            },
            Elem::Write(w) => {
                w.node_id = node_id;
                w.prog_id = prog_id;
            },
        }
    }

    /// The node's execution location.
    pub fn get_loc(&self) -> (r: Location)
        ensures
            r@ == elem_loc(self@),
    {
        match self {
            Elem::Cmd(c) => c.location.duplicate(),
            Elem::Read(r) => r.location.duplicate(),
            Elem::Write(w) => w.location.duplicate(),
        }
    }

    /// Set the node's execution location.
    pub fn set_loc(&mut self, location: Location)
        ensures
            final(self)@ == with_loc(old(self)@, location@),
    {
        match self {
            Elem::Cmd(c) => {
                c.location = location;
            },
            Elem::Read(r) => {
                r.location = location;
            },
            Elem::Write(w) => {
                w.location = location;
            },
        }
    }

    /// How many streams the node's standard output fans out to.
    pub fn get_stdout_len(&self) -> (r: usize)
        ensures
            r == match self@ {
                ElemView::Cmd(c) => c.stdout.len() as int,
                ElemView::Read(rd) => if rd.stdout is Some {
                    1int
                } else {
                    0int
                },
                ElemView::Write(w) => w.output.len() as int,
            },
    {
        match self {
            Elem::Cmd(c) => c.stdout.len(),
            Elem::Read(r) => match &r.stdout {
                Some(_) => 1,
                None => 0,
            },
            Elem::Write(w) => w.output.len(),
        }
    }

    /// How many streams the node's standard error fans out to.
    pub fn get_stderr_len(&self) -> (r: usize)
        ensures
            r == match self@ {
                ElemView::Cmd(c) => c.stderr.len() as int,
                _ => 0int,
            },
    {
        match self {
            Elem::Cmd(c) => c.stderr.len(),
            _ => 0,
        }
    }

    /// A structurally equal copy whose value the verifier knows.
    pub fn duplicate(&self) -> (r: Elem)
        ensures
            r@ == self@,
    {
        match self {
            Elem::Cmd(c) => Elem::Cmd(c.duplicate()),
            Elem::Read(rd) => Elem::Read(rd.duplicate()),
            Elem::Write(w) => Elem::Write(w.duplicate()),
        }
    }

    /// Add an edge stream to the node's outputs.
    pub fn attach_out_stream(&mut self, s: DashStream, io: IOType) -> (r: Result<(), Error>)
        requires
            is_edge_stream(s@),
        ensures
            match r {
                Ok(()) => can_attach_out(old(self)@, io) && final(self)@ == attach_out(
                    old(self)@,
                    s@,
                    io,
                ),
                Err(e) => e == Error::InvalidRedirection && !can_attach_out(old(self)@, io)
                    && *final(self) == *old(self),
            },
    {
        match self {
            Elem::Cmd(c) => {
                if io == IOType::Stdin {
                    return Err(Error::InvalidRedirection);
                }
                if io == IOType::Stderr {
                    let ghost prior = c@.stderr;
                    c.stderr.push(s);
                    proof {
                        assert(streams_view(c.stderr@) =~= prior.push(c.stderr@.last()@));
                    }
                } else {
                    let ghost prior = c@.stdout;
                    c.stdout.push(s);
                    proof {
                        assert(streams_view(c.stdout@) =~= prior.push(c.stdout@.last()@));
                    }
                }
                Ok(())
            },
            Elem::Read(rd) => {
                if io != IOType::Stdout {
                    return Err(Error::InvalidRedirection);
                }
                match &rd.stdout {
                    Some(_) => Err(Error::InvalidRedirection),
                    None => match rd.set_stdout(s) {
                        Ok(()) => Ok(()),
                        Err(e) => Err(e),
                    },
                }
            },
            Elem::Write(_) => Err(Error::InvalidRedirection),
        }
    }

    /// Add an edge stream to the node's inputs.
    pub fn attach_in_stream(&mut self, s: DashStream) -> (r: Result<(), Error>)
        requires
            is_edge_stream(s@),
        ensures
            match r {
                Ok(()) => can_attach_in(old(self)@) && final(self)@ == attach_in(old(self)@, s@),
                Err(e) => e == Error::InvalidRedirection && !can_attach_in(old(self)@)
                    && *final(self) == *old(self),
            },
    {
        match self {
            Elem::Cmd(c) => {
                let ghost prior = c@.stdin;
                c.stdin.push(s);
                proof {
                    assert(streams_view(c.stdin@) =~= prior.push(c.stdin@.last()@));
                }
                Ok(())
            },
            Elem::Read(_) => Err(Error::InvalidRedirection),
            Elem::Write(w) => match w.add_stdin(s) {
                Ok(()) => Ok(()),
                Err(e) => Err(e),
            },
        }
    }

    /// Resolve every file path the node holds against a parent directory.
    pub fn resolve_args(&mut self, parent: &str)
        ensures
            final(self)@ == resolved_elem(parent@, old(self)@),
    {
        match self {
            Elem::Cmd(c) => {
                let mut args: Vec<NodeArg> = Vec::new();
                let mut i: usize = 0;
                while i < c.args.len()
                    invariant
                        i <= c.args.len(),
                        args@.len() == i,
                        forall|j: int|
                            0 <= j < i ==> args@[j]@ == resolved_arg(parent@, c.args@[j]@),
                    decreases c.args.len() - i,
                {
                    let a = match &c.args[i] {
                        NodeArg::Str(w) => NodeArg::Str(w.clone()),
                        NodeArg::Stream(fs) => {
                            let mut copy = fs.duplicate();
                            copy.prepend_directory(parent);
                            NodeArg::Stream(copy)
                        },
                    };
                    args.push(a);
                    i = i + 1;
                }
                proof {
                    assert(args_view(args@) =~= resolved_args(parent@, args_view(c.args@)));
                }
                c.args = args;
                c.stdin = resolve_stream_vec(&c.stdin, parent);
                c.stdout = resolve_stream_vec(&c.stdout, parent);
                c.stderr = resolve_stream_vec(&c.stderr, parent);
            },
            Elem::Read(rd) => {
                rd.input.prepend_directory(parent);
                match &rd.stdout {
                    Some(s) => {
                        rd.stdout = Some(resolve_stream(s, parent));
                    },
                    None => {},
                }
            },
            Elem::Write(w) => {
                w.stdin = resolve_stream_vec(&w.stdin, parent);
                w.output = resolve_stream_vec(&w.output, parent);
            },
        }
    }

    /// Replace one pipe stream by its TCP replacement.  The IO type
    /// selects the list that is searched: `Stdin` the node's inputs,
    /// `Stdout` and `Stderr` the matching outputs.
    pub fn replace_pipe_with_net(&mut self, pipe: PipeStream, net: NetStream, io: IOType) -> (r:
        Result<(), Error>)
        ensures
            match r {
                Ok(()) => if replace_applies(old(self)@, io) {
                    exists|k: int|
                        {
                            &&& 0 <= k < replace_list(old(self)@, io).len()
                            &&& replace_list(old(self)@, io)[k] == DashStreamView::Pipe(pipe)
                            &&& final(self)@ == with_replace_list(
                                old(self)@,
                                io,
                                replace_list(old(self)@, io).update(k, DashStreamView::Tcp(net@)),
                            )
                        }
                } else {
                    final(self)@ == old(self)@
                },
                Err(e) => e == Error::StreamMismatch && final(self)@ == old(self)@
                    && replace_applies(old(self)@, io) && !exists|k: int|
                    0 <= k < replace_list(old(self)@, io).len() && replace_list(old(self)@, io)[k]
                        == DashStreamView::Pipe(pipe),
            },
    {
        match self {
            Elem::Cmd(c) => {
                let found = match io {
                    IOType::Stdin => replace_pipe_in_vec(&mut c.stdin, pipe, net),
                    IOType::Stdout => replace_pipe_in_vec(&mut c.stdout, pipe, net),
                    IOType::Stderr => replace_pipe_in_vec(&mut c.stderr, pipe, net),
                };
                match found {
                    Ok(k) => {
                        proof {
                            let lst = replace_list(old(self)@, io);
                            assert(0 <= k < lst.len() && lst[k as int] == DashStreamView::Pipe(
                                pipe,
                            ) && self@ == with_replace_list(
                                old(self)@,
                                io,
                                lst.update(k as int, DashStreamView::Tcp(net@)),
                            ));
                        }
                        Ok(())
                    },
                    Err(e) => Err(e),
                }
            },
            Elem::Read(rd) => {
                if io != IOType::Stdout {
                    return Ok(());
                }
                match &rd.stdout {
                    Some(DashStream::Pipe(p)) => {
                        if *p == pipe {
                            rd.stdout = Some(DashStream::Tcp(net));
                            proof {
                                let lst = replace_list(old(self)@, io);
                                assert(lst =~= seq![DashStreamView::Pipe(pipe)]);
                                assert(lst.update(0, DashStreamView::Tcp(net@)) =~= seq![
                                    DashStreamView::Tcp(net@)
                                ]);
                                assert(0 <= 0 < lst.len() && lst[0] == DashStreamView::Pipe(pipe)
                                    && self@ == with_replace_list(
                                    old(self)@,
                                    io,
                                    lst.update(0, DashStreamView::Tcp(net@)),
                                ));
                            }
                            Ok(())
                        } else {
                            Err(Error::StreamMismatch)
                        }
                    },
                    _ => Err(Error::StreamMismatch),
                }
            },
            Elem::Write(w) => {
                if io != IOType::Stdin {
                    return Ok(());
                }
                match replace_pipe_in_vec(&mut w.stdin, pipe, net) {
                    Ok(k) => {
                        proof {
                            let lst = replace_list(old(self)@, io);
                            assert(0 <= k < lst.len() && lst[k as int] == DashStreamView::Pipe(
                                pipe,
                            ) && self@ == with_replace_list(
                                old(self)@,
                                io,
                                lst.update(k as int, DashStreamView::Tcp(net@)),
                            ));
                        }
                        Ok(())
                    },
                    Err(e) => Err(e),
                }
            },
        }
    }
}

/// Whether the IO type selects a list the node carries: only then does
/// `replace_pipe_with_net` search and possibly fail.  A read node
/// produces on stdout alone and a write node consumes on stdin alone;
/// asking either to replace elsewhere is a silent no-op, so that the
/// splitter can offer the replacement to both endpoints uniformly.
pub open spec fn replace_applies(e: ElemView, io: IOType) -> bool {
    match e {
        ElemView::Cmd(_) => true,
        ElemView::Read(_) => io == IOType::Stdout,
        ElemView::Write(_) => io == IOType::Stdin,
    }
}

/// The list of a node that `replace_pipe_with_net` searches for an IO type.
pub open spec fn replace_list(e: ElemView, io: IOType) -> Seq<DashStreamView> {
    match e {
        ElemView::Cmd(c) => match io {
            IOType::Stdin => c.stdin,
            IOType::Stdout => c.stdout,
            IOType::Stderr => c.stderr,
        },
        ElemView::Read(r) => if io == IOType::Stdout {
            match r.stdout {
                Some(s) => seq![s],
                None => Seq::empty(),
            }
        } else {
            Seq::empty()
        },
        ElemView::Write(w) => if io == IOType::Stdin {
            w.stdin
        } else {
            Seq::empty()
        },
    }
}

/// The node with the searched list replaced.
pub open spec fn with_replace_list(e: ElemView, io: IOType, l: Seq<DashStreamView>) -> ElemView {
    match e {
        ElemView::Cmd(c) => match io {
            IOType::Stdin => ElemView::Cmd(CommandNodeView { stdin: l, ..c }),
            IOType::Stdout => ElemView::Cmd(CommandNodeView { stdout: l, ..c }),
            IOType::Stderr => ElemView::Cmd(CommandNodeView { stderr: l, ..c }),
        },
        ElemView::Read(r) => if io == IOType::Stdout && l.len() == 1 {
            ElemView::Read(ReadNodeView { stdout: Some(l[0]), ..r })
        } else {
            e
        },
        ElemView::Write(w) => if io == IOType::Stdin {
            ElemView::Write(WriteNodeView { stdin: l, ..w })
        } else {
            e
        },
    }
}

/// Replace the first occurrence of a pipe in a stream vector by a TCP
/// stream.
fn replace_pipe_in_vec(v: &mut Vec<DashStream>, pipe: PipeStream, net: NetStream) -> (r: Result<
    usize,
    Error,
>)
    ensures
        match r {
            Ok(k) => {
                &&& 0 <= k < old(v)@.len()
                &&& old(v)@[k as int]@ == DashStreamView::Pipe(pipe)
                &&& streams_view(final(v)@) == streams_view(old(v)@).update(
                    k as int,
                    DashStreamView::Tcp(net@),
                )
            },
            Err(e) => e == Error::StreamMismatch && final(v)@ == old(v)@ && !exists|k: int|
                0 <= k < old(v)@.len() && old(v)@[k]@ == DashStreamView::Pipe(pipe),
        },
{
    let mut i: usize = 0;
    while i < v.len()
        invariant
            i <= v.len(),
            v@ == old(v)@,
            forall|j: int| 0 <= j < i ==> v@[j]@ != DashStreamView::Pipe(pipe),
        decreases v.len() - i,
    {
        let found = match &v[i] {
            DashStream::Pipe(p) => *p == pipe,
            _ => false,
        };
        if found {
            let ghost prior = streams_view(v@);
            let ghost kk = i as int;
            v.set(i, DashStream::Tcp(net));
            proof {
                assert(streams_view(v@) =~= prior.update(kk, DashStreamView::Tcp(net@)));
            }
            return Ok(i);
        }
        i = i + 1;
    }
    Err(Error::StreamMismatch)
}


} // verus!
