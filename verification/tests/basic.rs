use dash::client::ShellClient;
use dash::errors::Error;
use dash::node::CommandNode;
use dash::node::Elem;
use dash::node::NodeArg;
use dash::node::ReadNode;
use dash::node::WriteNode;
use dash::program::Program;
use dash::shellparser::RawShellElement;
use dash::shellparser::ShellSplit;
use dash::shellparser::SubCommand;
use dash::stream::DashStream;
use dash::stream::FileMode;
use dash::stream::FileStream;
use dash::stream::IOType;
use dash::stream::Location;
use dash::stream::NetStream;
use dash::stream::PipeStream;

#[test]
fn client_new_and_set_pwd() {
    let mut c = ShellClient::new("1234", "/home/u", "/tmp").unwrap();
    assert_eq!(c.port, "1234");
    c.set_pwd("/srv");
    assert_eq!(c.pwd, "/srv");
}

#[test]
fn subcommand_push() {
    let mut sc = SubCommand::new(vec![RawShellElement::Str("cat".to_string())]);
    sc.push(RawShellElement::Stdout);
    assert_eq!(sc.elts.len(), 2);
    let split = ShellSplit::from_vec(sc.elts);
    assert_eq!(split.elts.len(), 2);
}

#[test]
fn file_stream_resolves_relative_paths() {
    let mut fs = FileStream::new_with_mode("a.txt", Location::Client, FileMode::Write);
    fs.prepend_directory("/srv");
    assert_eq!(fs.get_name(), "/srv/a.txt");
    fs.prepend_directory("/srv");
    assert_eq!(fs.get_name(), "/srv/a.txt");
}

#[test]
fn program_pipe_edges() {
    let mut p = Program::make(7);
    let a = p.add_elem(Elem::Cmd(CommandNode::make()));
    let b = p.add_elem(Elem::Cmd(CommandNode::make()));
    let pipe = p.add_pipe_edge(a, b, IOType::Stdout).unwrap();
    assert_eq!(pipe.left, a);
    assert_eq!(pipe.right, b);
    assert_eq!(p.add_pipe_edge(a, b, IOType::Stdout), Err(Error::DuplicateEdge));
    assert_eq!(p.add_pipe_edge(a, 99, IOType::Stdout), Err(Error::MissingNode));
}

fn words(elts: &[RawShellElement]) -> Vec<String> {
    elts.iter()
        .map(|e| match e {
            RawShellElement::Str(s) => s.clone(),
            RawShellElement::Stdin => "<".to_string(),
            RawShellElement::Stdout => ">".to_string(),
            RawShellElement::StdoutAppend => ">>".to_string(),
            RawShellElement::Stderr => "2>".to_string(),
            RawShellElement::Pipe => "|".to_string(),
            RawShellElement::Subcmd(_) => "<( … )".to_string(),
        })
        .collect()
}

#[test]
fn test_mogrify() {
    let cmd = "mogrify  -format gif -path thumbs_dir -thumbnail 100x100 data_dir/*.jpg";
    let shell_split = ShellSplit::new(cmd).unwrap();
    // Wildcards stay literal words: globbing is deferred to the process.
    assert_eq!(
        words(&shell_split.elts),
        vec!["mogrify", "-format", "gif", "-path", "thumbs_dir", "-thumbnail", "100x100", "data_dir/*.jpg"]
    );
}

#[test]
fn test_shell_split_to_graph() {
    let cmd = "grep foo <( cat bar ) <( cat bar2 ) | wc > output.txt 2> err.txt";
    let shell_split = ShellSplit::new(cmd).unwrap();
    let elts = &shell_split.elts;
    // grep foo, then two (Stdin, Subcmd) pairs, then | wc > output.txt 2> err.txt
    assert!(matches!(&elts[0], RawShellElement::Str(s) if s == "grep"));
    assert!(matches!(&elts[1], RawShellElement::Str(s) if s == "foo"));
    assert!(matches!(elts[2], RawShellElement::Stdin));
    match &elts[3] {
        RawShellElement::Subcmd(sc) => assert_eq!(words(&sc.elts), vec!["cat", "bar"]),
        _ => panic!("expected a subcommand"),
    }
    assert!(matches!(elts[4], RawShellElement::Stdin));
    match &elts[5] {
        RawShellElement::Subcmd(sc) => assert_eq!(words(&sc.elts), vec!["cat", "bar2"]),
        _ => panic!("expected a subcommand"),
    }
    assert!(matches!(elts[6], RawShellElement::Pipe));
    assert!(matches!(&elts[7], RawShellElement::Str(s) if s == "wc"));
    assert!(matches!(elts[8], RawShellElement::Stdout));
    assert!(matches!(&elts[9], RawShellElement::Str(s) if s == "output.txt"));
    assert!(matches!(elts[10], RawShellElement::Stderr));
    assert!(matches!(&elts[11], RawShellElement::Str(s) if s == "err.txt"));
    assert_eq!(elts.len(), 12);
}

#[test]
fn test_scan_command() {
    let cmd = "pr -mts, <( cat annotated | jq \".ip\" | tr -d '\"' ) <( cat annotated | jq -c \".zannotate.routing.asn\" ) | awk -F',' '{ a[$2]++; } END { for (n in a) print n \",\" a[n] } ' | sort -k2 -n -t',' -r > as_popularity";
    let shell_split = ShellSplit::new(cmd).unwrap();
    // Two substitutions, each carrying its inner pipeline.
    let subs: Vec<&SubCommand> = shell_split
        .elts
        .iter()
        .filter_map(|e| match e {
            RawShellElement::Subcmd(sc) => Some(sc),
            _ => None,
        })
        .collect();
    assert_eq!(subs.len(), 2);
    assert_eq!(words(&subs[0].elts), vec!["cat", "annotated", "|", "jq", ".ip", "|", "tr", "-d", "\""]);
}

#[test]
fn parse_error_cases() {
    assert!(matches!(ShellSplit::new("cat 'a"), Err(Error::Quotes)));
    assert!(matches!(ShellSplit::new("grep x <( cat a"), Err(Error::UnclosedParens)));
    assert!(matches!(
        ShellSplit::new("grep x <( cat <( inner ) )"),
        Err(Error::BadStructure)
    ));
    let empty = ShellSplit::new("").unwrap();
    assert_eq!(empty.elts.len(), 0);
}

fn mini_pipeline(write_path: &str, write_loc: Location) -> Program {
    let mut p = Program::make(3);
    let mut grep = CommandNode::make();
    grep.set_name("grep");
    grep.add_arg(NodeArg::Str("x".to_string()));
    let cmd = p.add_elem(Elem::Cmd(grep));
    let mut read = ReadNode::make();
    read.add_stdin(DashStream::File(FileStream::new(
        "/srv1/a",
        Location::Server("s1".to_string()),
    )))
    .unwrap();
    let rd = p.add_elem(Elem::Read(read));
    let mut write = WriteNode::make();
    write
        .add_stdout(DashStream::File(FileStream::new_with_mode(
            write_path,
            write_loc,
            FileMode::Write,
        )))
        .unwrap();
    let wr = p.add_elem(Elem::Write(write));
    p.add_pipe_edge(rd, cmd, IOType::Stdout).unwrap();
    p.add_pipe_edge(cmd, wr, IOType::Stdout).unwrap();
    p
}

#[test]
fn split_same_machine_keeps_pipes() {
    // Both the file input and the file output live on s1: one
    // partition, no TCP streams, both edges kept.
    let p = mini_pipeline("/srv1/b", Location::Server("s1".to_string()));
    let parts = p.split_by_machine().unwrap();
    assert_eq!(parts.len(), 1);
    let (loc, part) = &parts[0];
    assert_eq!(*loc, Location::Server("s1".to_string()));
    assert_eq!(part.nodes.len(), 3);
    assert_eq!(part.edges.len(), 2);
    assert!(part.get_outward_streams(loc).is_empty());
}

#[test]
fn split_cross_machine_rewrites_tcp() {
    // The write lands on the client: two partitions and exactly one
    // TCP stream from the command at s1 to the client-side write.
    let p = mini_pipeline("/local/b", Location::Client);
    let parts = p.split_by_machine().unwrap();
    assert_eq!(parts.len(), 2);
    let s1 = Location::Server("s1".to_string());
    let server_part = parts.iter().find(|(l, _)| *l == s1).unwrap();
    let client_part = parts.iter().find(|(l, _)| *l == Location::Client).unwrap();
    assert_eq!(server_part.1.nodes.len(), 2);
    assert_eq!(client_part.1.nodes.len(), 1);
    // The within-machine read edge stays; the cross edge is dropped
    // from both partitions and its stream became TCP on each side.
    assert_eq!(server_part.1.edges.len(), 1);
    assert_eq!(client_part.1.edges.len(), 0);
    let outward = server_part.1.get_outward_streams(&s1);
    assert_eq!(outward.len(), 1);
    assert_eq!(*outward[0].get_sending_side(), s1);
    assert_eq!(*outward[0].get_receiving_side(), Location::Client);
}

#[test]
fn split_conflicting_write_files() {
    let mut p = Program::make(4);
    let mut w = WriteNode::make();
    w.add_stdout(DashStream::File(FileStream::new_with_mode(
        "/a",
        Location::Server("s1".to_string()),
        FileMode::Write,
    )))
    .unwrap();
    w.add_stdout(DashStream::File(FileStream::new_with_mode(
        "/b",
        Location::Server("s2".to_string()),
        FileMode::Write,
    )))
    .unwrap();
    p.add_elem(Elem::Write(w));
    assert_eq!(p.split_by_machine().unwrap_err(), Error::LocationConflict);
}

#[test]
fn replace_pipe_tolerates_other_io() {
    // A read node asked to replace on stderr is left unchanged,
    // matching the splitter offering the rewrite to both endpoints.
    let mut read = ReadNode::make();
    read.set_stdout(DashStream::Pipe(PipeStream::new(1, 2, IOType::Stdout)))
        .unwrap();
    let mut elem = Elem::Read(read);
    let net = NetStream::new(1, 2, IOType::Stdout, Location::Client, Location::Client);
    assert_eq!(
        elem.replace_pipe_with_net(PipeStream::new(1, 2, IOType::Stdout), net.clone(), IOType::Stderr),
        Ok(())
    );
    // On stdout with the wrong pipe it reports the mismatch.
    assert_eq!(
        elem.replace_pipe_with_net(PipeStream::new(9, 2, IOType::Stdout), net.clone(), IOType::Stdout),
        Err(Error::StreamMismatch)
    );
    // With the matching pipe the stream becomes TCP.
    assert_eq!(
        elem.replace_pipe_with_net(PipeStream::new(1, 2, IOType::Stdout), net, IOType::Stdout),
        Ok(())
    );
    match elem {
        Elem::Read(r) => assert!(matches!(r.stdout, Some(DashStream::Tcp(_)))),
        _ => panic!("expected a read node"),
    }
}

#[test]
fn write_node_output_rules() {
    let mut w = WriteNode::make();
    // add_stdout takes files only; terminal sinks go through set_stdout.
    assert_eq!(w.add_stdout(DashStream::Stdout), Err(Error::InvalidRedirection));
    assert_eq!(w.set_stdout(DashStream::Stdout), Ok(()));
    assert_eq!(
        w.add_stdout(DashStream::File(FileStream::new("/x", Location::Client))),
        Ok(())
    );
    assert_eq!(w.add_stderr(DashStream::Stderr), Err(Error::InvalidRedirection));
    assert_eq!(w.output.len(), 2);
}

#[test]
fn resolve_args_empty_parent_is_noop() {
    let mut p = mini_pipeline("/local/b", Location::Client);
    let before = p.clone();
    p.resolve_args("");
    assert_eq!(p, before);
}
