//! The command record: one recorded compiler invocation, together with the
//! spec-level model that the reconciliation contracts are stated over.

use vstd::prelude::*;

verus! {

/// Length of the retention window in seconds: records whose `created`
/// timestamp lies further than this in the past are expired.
pub const RETENTION_SECS: u64 = 30 * 24 * 3600;

/// One recorded compiler invocation.
///
/// `created` is ephemeral metadata (seconds since the Unix epoch): it is
/// filled in when the record is loaded and never persisted.
pub struct Command {
    /// The invocation's argument list, compiler name and flags included.
    pub arguments: Vec<String>,
    /// Working directory the invocation was recorded from.
    pub directory: String,
    /// Primary input file of the invocation, often relative to `directory`.
    pub file: String,
    /// Creation timestamp, seconds since the Unix epoch.
    pub created: u64,
}

/// Mathematical model of a [`Command`].
pub ghost struct CommandModel {
    pub arguments: Seq<Seq<char>>,
    pub directory: Seq<char>,
    pub file: Seq<char>,
    pub created: u64,
}

impl View for Command {
    type V = CommandModel;

    open spec fn view(&self) -> CommandModel {
        CommandModel {
            arguments: self.arguments.deep_view(),
            directory: self.directory@,
            file: self.file@,
            created: self.created,
        }
    }
}

impl DeepView for Command {
    type V = CommandModel;

    open spec fn deep_view(&self) -> CommandModel {
        self@
    }
}

/// Does the file name end in `.c`?
pub open spec fn ends_dot_c(s: Seq<char>) -> bool {
    s.len() >= 2 && s[s.len() - 2] == '.' && s[s.len() - 1] == 'c'
}

/// Does the file name end in `.cpp`?
pub open spec fn ends_dot_cpp(s: Seq<char>) -> bool {
    s.len() >= 4 && s[s.len() - 4] == '.' && s[s.len() - 3] == 'c' && s[s.len() - 2] == 'p'
        && s[s.len() - 1] == 'p'
}

/// A record takes part in header inference iff its file names a C or C++
/// source file.
pub open spec fn is_source_file(s: Seq<char>) -> bool {
    ends_dot_c(s) || ends_dot_cpp(s)
}

/// The file name with its `.c` or `.cpp` extension replaced by `ext`
/// (the dot is kept); unchanged when it has neither extension.
pub open spec fn swapped_file(s: Seq<char>, ext: Seq<char>) -> Seq<char> {
    if ends_dot_c(s) {
        s.subrange(0, s.len() - 1) + ext
    } else if ends_dot_cpp(s) {
        s.subrange(0, s.len() - 3) + ext
    } else {
        s
    }
}

/// Every argument that exactly equals `old_name` rewritten to `new_name`;
/// all other arguments, partial matches included, are left untouched.
pub open spec fn rewrite_args(args: Seq<Seq<char>>, old_name: Seq<char>, new_name: Seq<char>) -> Seq<
    Seq<char>,
> {
    args.map_values(|a: Seq<char>| if a == old_name { new_name } else { a })
}

/// Is the record young enough to survive the expiry filter at time `now`?
pub open spec fn recent(c: CommandModel, now: u64) -> bool {
    c.created >= now - RETENTION_SECS
}

/// Character-by-character string equality, so that exact-match comparisons
/// can be reasoned about at the model level.
pub fn str_eq(a: &str, b: &str) -> (r: bool)
    ensures
        r == (a@ == b@),
{
    let an = a.unicode_len();
    let bn = b.unicode_len();
    if an != bn {
        proof {
            if a@ == b@ {
                assert(a@.len() == b@.len());
            }
        }
        return false;
    }
    let mut i: usize = 0;
    while i < an
        invariant
            an == a@.len(),
            bn == b@.len(),
            an == bn,
            i <= an,
            forall|j: int| 0 <= j < i ==> a@[j] == b@[j],
        decreases an - i,
    {
        if a.get_char(i) != b.get_char(i) {
            proof {
                if a@ == b@ {
                    assert(a@[i as int] == b@[i as int]);
                }
            }
            return false;
        }
        i += 1;
    }
    proof {
        assert(a@ =~= b@);
    }
    true
}

impl Command {
    /// An owned copy with the same model.
    pub fn duplicate(&self) -> (r: Command)
        ensures
            r@ == self@,
    {
        let n = self.arguments.len();
        let mut args: Vec<String> = Vec::new();
        let mut i: usize = 0;
        while i < n
            invariant
                i <= n,
                n == self.arguments.len(),
                args@.len() == i,
                forall|j: int| 0 <= j < i ==> args@[j]@ == self@.arguments[j],
            decreases n - i,
        {
            args.push(self.arguments[i].clone());
            i += 1;
        }
        proof {
            assert(args.deep_view() =~= self@.arguments);
        }
        Command {
            arguments: args,
            directory: self.directory.clone(),
            file: self.file.clone(),
            created: self.created,
        }
    }

    /// Replace a trailing `.c` or `.cpp` extension of `file` with `ext` and
    /// report whether anything changed; a file with neither extension is
    /// left untouched.
    pub fn set_ext(&mut self, ext: &str) -> (changed: bool)
        ensures
            changed == is_source_file(old(self)@.file),
            final(self)@.file == swapped_file(old(self)@.file, ext@),
            final(self)@.arguments == old(self)@.arguments,
            final(self)@.directory == old(self)@.directory,
            final(self)@.created == old(self)@.created,
    {
        let n = self.file.as_str().unicode_len();
        if n >= 2 && self.file.as_str().get_char(n - 2) == '.' && self.file.as_str().get_char(
            n - 1,
        ) == 'c' {
            let mut s = self.file.as_str().substring_char(0, n - 1).to_owned();
            s.append(ext);
            self.file = s;
            true
        } else if n >= 4 && self.file.as_str().get_char(n - 4) == '.' && self.file.as_str().get_char(
            n - 3,
        ) == 'c' && self.file.as_str().get_char(n - 2) == 'p' && self.file.as_str().get_char(
            n - 1,
        ) == 'p' {
            let mut s = self.file.as_str().substring_char(0, n - 3).to_owned();
            s.append(ext);
            self.file = s;
            true
        } else {
            false
        }
    }

    /// Rewrite every argument that exactly equals `old_name` to the current
    /// `file`, so a flag naming the source file stays consistent after the
    /// file itself was renamed; partial matches are left untouched.
    pub fn fix_name(&mut self, old_name: &str)
        ensures
            final(self)@.arguments == rewrite_args(
                old(self)@.arguments,
                old_name@,
                old(self)@.file,
            ),
            final(self)@.directory == old(self)@.directory,
            final(self)@.file == old(self)@.file,
            final(self)@.created == old(self)@.created,
    {
        let n = self.arguments.len();
        let mut i: usize = 0;
        while i < n
            invariant
                i <= n,
                n == self.arguments.len(),
                self@.file == old(self)@.file,
                self@.directory == old(self)@.directory,
                self@.created == old(self)@.created,
                forall|j: int| 0 <= j < i ==> self@.arguments[j] == (if old(self)@.arguments[j]
                    == old_name@ {
                    old(self)@.file
                } else {
                    old(self)@.arguments[j]
                }),
                forall|j: int| i <= j < n ==> self@.arguments[j] == old(self)@.arguments[j],
            decreases n - i,
        {
            if str_eq(self.arguments[i].as_str(), old_name) {
                let nf = self.file.clone();
                self.arguments.set(i, nf);
            }
            i += 1;
        }
        proof {
            assert(self@.arguments =~= rewrite_args(
                old(self)@.arguments,
                old_name@,
                old(self)@.file,
            ));
        }
    }

    /// The canonicalized join of `directory` and `file`: the identity of the
    /// record's target on disk, or `None` when the join does not resolve to
    /// an existing filesystem entity (or resolves to a non-UTF-8 path).
    ///
    /// Relies on `std::path::Path::canonicalize`. The result depends on the
    /// live filesystem, so nothing is promised of it.
    #[verifier::external_body]
    pub fn full_path(&self) -> Option<String> {
        match std::path::Path::new(&self.directory).join(&self.file).canonicalize() {
            Ok(p) => match p.into_os_string().into_string() {
                Ok(s) => Some(s),
                Err(_) => None,
            },
            Err(_) => None,
        }
    }
}

} // verus!
