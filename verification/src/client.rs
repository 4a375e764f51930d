//! The client that plans a command's execution across the cluster.
use vstd::prelude::*;

verus! {

/// The client's connection settings: the server port, the working
/// directory for resolving relative paths, and the scratch folder.
#[derive(Clone, Debug, PartialEq)]
pub struct ShellClient {
    pub port: String,
    pub pwd: String,
    pub tmp: String,
}

impl ShellClient {
    /// A client for servers on `server_port`, resolving paths against
    /// `pwd`, with scratch space under `tmp`.
    pub fn new(server_port: &str, pwd: &str, tmp: &str) -> (r: Result<ShellClient, crate::errors::Error>)
        ensures
            r matches Ok(c) && c.port@ == server_port@ && c.pwd@ == pwd@ && c.tmp@ == tmp@,
    {
        Ok(ShellClient {
            port: String::from_str(server_port),
            pwd: String::from_str(pwd),
            tmp: String::from_str(tmp),
        })
    }

    /// Change the working directory.
    pub fn set_pwd(&mut self, pwd: &str)
        ensures
            final(self).pwd@ == pwd@,
            final(self).port@ == old(self).port@,
            final(self).tmp@ == old(self).tmp@,
    {
        self.pwd = String::from_str(pwd);
    }
}

} // verus!
