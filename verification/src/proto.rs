use vstd::prelude::*;

verus! {

/// A workspace descriptor: the record identifying which backend command to
/// run for a given workspace root. It is the sole control message of a
/// session, sent as the handshake payload on a fresh connection.
pub struct Project {
    /// Absolute filesystem path identifying the workspace.
    pub root: String,
    /// Executable name or path to launch.
    pub command: String,
    /// Ordered arguments passed to the executable.
    pub args: Vec<String>,
}

/// The mathematical value of a descriptor: its three fields as sequences of
/// characters.
pub struct ProjectView {
    pub root: Seq<char>,
    pub command: Seq<char>,
    pub args: Seq<Seq<char>>,
}

impl View for Project {
    type V = ProjectView;

    open spec fn view(&self) -> ProjectView {
        ProjectView {
            root: self.root@,
            command: self.command@,
            args: self.args.deep_view(),
        }
    }
}

impl ProjectView {
    /// A descriptor is valid only when its command is non-empty; an empty
    /// command must never be launched.
    pub open spec fn valid(self) -> bool {
        self.command.len() > 0
    }
}

impl Project {
    pub fn new(root: String, command: String, args: Vec<String>) -> (r: Project)
        ensures
            r.root == root,
            r.command == command,
            r.args == args,
    {
        Project { root, command, args }
    }

    pub fn is_valid(&self) -> (r: bool)
        ensures
            r == self@.valid(),
    {
        !self.command.as_str().is_empty()
    }
}

fn clone_strings(v: &Vec<String>) -> (r: Vec<String>)
    ensures
        r@ == v@,
{
    let mut r: Vec<String> = Vec::new();
    let mut i: usize = 0;
    while i < v.len()
        invariant
            i <= v.len(),
            r@ == v@.subrange(0, i as int),
        decreases v.len() - i,
    {
        r.push(v[i].clone());
        assert(r@ =~= v@.subrange(0, i + 1 as int));
        i += 1;
    }
    assert(r@ =~= v@);
    r
}

impl Clone for Project {
    fn clone(&self) -> (r: Self)
        ensures
            r@ == self@,
            r.root == self.root,
            r.command == self.command,
            r.args@ == self.args@,
    {
        let r = Project {
            root: self.root.clone(),
            command: self.command.clone(),
            args: clone_strings(&self.args),
        };
        assert(r.args.deep_view() =~= self.args.deep_view());
        assert(r@ =~= self@);
        r
    }
}

} // verus!
