use crate::error::InstallError;
use crate::layout::child;
use crate::paths::{is_sep, join_component};
use vstd::prelude::*;
use vstd::string::{StrSliceExecFns, StringExecFns};

verus! {

/// One desktop shortcut: its name, what it opens, and the folder it starts
/// in, if any.
pub struct ShortcutSpec {
    pub name: String,
    pub target: String,
    pub working_dir: Option<String>,
}

/// Name, target and working folder of a shortcut.
pub type ShortcutModel = (Seq<char>, Seq<char>, Option<Seq<char>>);

impl ShortcutSpec {
    pub open spec fn model(&self) -> ShortcutModel {
        (self.name@, self.target@, match self.working_dir {
            Some(w) => Some(w@),
            None => None,
        })
    }
}

pub open spec fn shortcut_models(v: Seq<ShortcutSpec>) -> Seq<ShortcutModel> {
    v.map_values(|s: ShortcutSpec| s.model())
}

/// The folder that holds `p`: everything before its last separator.
pub open spec fn parent_of(p: Seq<char>) -> Option<Seq<char>>
    decreases p.len(),
{
    if p.len() == 0 {
        None
    } else if is_sep(p.last()) {
        Some(p.drop_last())
    } else {
        parent_of(p.drop_last())
    }
}

/// The folder that holds `p`, as `parent_of` says.
pub fn parent_dir(p: &str) -> (r: Option<String>)
    ensures
        r matches Some(d) ==> parent_of(p@) == Some(d@),
        r is None ==> parent_of(p@) is None,
{
    let n = p.unicode_len();
    let mut i: usize = n;
    assert(p@.subrange(0, n as int) =~= p@);
    while i > 0
        invariant
            i <= n == p@.len(),
            parent_of(p@) == parent_of(p@.subrange(0, i as int)),
        decreases i,
    {
        let c = p.get_char(i - 1);
        assert(p@.subrange(0, i as int).drop_last() =~= p@.subrange(0, i - 1));
        if c == '/' || c == '\\' {
            return Some(String::from_str(p.substring_char(0, i - 1)));
        }
        i = i - 1;
    }
    None
}

/// The shortcuts of an installation: the application, started in the folder
/// that holds it (or in `root` when it has none), and the two support
/// folders.
pub open spec fn shortcuts_of(root: Seq<char>, exe: Seq<char>) -> Seq<ShortcutModel> {
    seq![
        ("Processing"@, exe, Some(
            match parent_of(exe) {
                Some(d) => d,
                None => root,
            },
        )),
        ("Startech"@, child(root, "startech"@), None),
        ("Template"@, child(root, "Template"@), None),
    ]
}

/// The shortcuts of an installation, as `shortcuts_of` says.
pub fn shortcut_specs(root: &str, exe: &str) -> (r: Vec<ShortcutSpec>)
    ensures
        shortcut_models(r@) == shortcuts_of(root@, exe@),
{
    let wd = match parent_dir(exe) {
        Some(d) => d,
        None => String::from_str(root),
    };
    let mut v: Vec<ShortcutSpec> = Vec::new();
    v.push(ShortcutSpec { name: String::from_str("Processing"), target: String::from_str(exe), working_dir: Some(wd) });
    v.push(ShortcutSpec { name: String::from_str("Startech"), target: join_component(root, "startech"), working_dir: None });
    v.push(ShortcutSpec { name: String::from_str("Template"), target: join_component(root, "Template"), working_dir: None });
    assert(shortcut_models(v@) =~= shortcuts_of(root@, exe@));
    v
}

/// `s` as the body of a single-quoted shell string: each `'` doubled.
pub open spec fn quoted(s: Seq<char>) -> Seq<char>
    decreases s.len(),
{
    if s.len() == 0 {
        Seq::empty()
    } else {
        quoted(s.drop_last()) + if s.last() == '\'' {
            seq!['\'', '\'']
        } else {
            seq![s.last()]
        }
    }
}

/// `s` as the body of a single-quoted shell string, as `quoted` says.
pub fn quote(s: &str) -> (r: String)
    ensures
        r@ == quoted(s@),
{
    let n = s.unicode_len();
    let mut r = String::new();
    let mut i: usize = 0;
    assert(s@.subrange(0, 0) =~= Seq::<char>::empty());
    while i < n
        invariant
            i <= n == s@.len(),
            r@ == quoted(s@.subrange(0, i as int)),
        decreases n - i,
    {
        let c = s.get_char(i);
        assert(s@.subrange(0, i + 1).drop_last() =~= s@.subrange(0, i as int));
        if c == '\'' {
            proof {
                reveal_strlit("''");
            }
            r.append("''");
        } else {
            let one = s.substring_char(i, i + 1);
            assert(one@ =~= seq![c]);
            r.append(one);
        }
        i = i + 1;
    }
    assert(s@.subrange(0, n as int) =~= s@);
    r
}

/// The script lines that create one shortcut on `desktop`.
pub open spec fn shortcut_block(desktop: Seq<char>, s: ShortcutModel) -> Seq<char> {
    "$s = $ws.CreateShortcut('"@ + quoted(child(desktop, s.0 + ".lnk"@)) + "')\n"@ + "$s.TargetPath = '"@
        + quoted(s.1) + "'\n"@ + match s.2 {
        Some(w) => "$s.WorkingDirectory = '"@ + quoted(w) + "'\n"@,
        None => Seq::empty(),
    } + "$s.Save()\n"@
}

pub open spec fn blocks(desktop: Seq<char>, v: Seq<ShortcutModel>) -> Seq<char>
    decreases v.len(),
{
    if v.len() == 0 {
        Seq::empty()
    } else {
        blocks(desktop, v.drop_last()) + shortcut_block(desktop, v.last())
    }
}

/// The script that creates every shortcut of `v` on `desktop` in one batch.
pub open spec fn shortcut_script_of(desktop: Seq<char>, v: Seq<ShortcutModel>) -> Seq<char> {
    "$ws = New-Object -ComObject WScript.Shell\n"@ + blocks(desktop, v)
}

fn shortcut_block_text(desktop: &str, s: &ShortcutSpec) -> (r: String)
    ensures
        r@ == shortcut_block(desktop@, s.model()),
{
    let mut link = String::from_str(s.name.as_str());
    link.append(".lnk");
    let link_path = join_component(desktop, link.as_str());
    let mut r = String::from_str("$s = $ws.CreateShortcut('");
    r.append(quote(link_path.as_str()).as_str());
    r.append("')\n");
    r.append("$s.TargetPath = '");
    r.append(quote(s.target.as_str()).as_str());
    r.append("'\n");
    match &s.working_dir {
        Some(w) => {
            r.append("$s.WorkingDirectory = '");
            r.append(quote(w.as_str()).as_str());
            r.append("'\n");
        },
        None => {},
    }
    r.append("$s.Save()\n");
    r
}

/// The shortcut script for `specs` on `desktop`, as `shortcut_script_of`
/// says.
pub fn shortcut_script(desktop: &str, specs: &Vec<ShortcutSpec>) -> (r: String)
    ensures
        r@ == shortcut_script_of(desktop@, shortcut_models(specs@)),
{
    let mut r = String::from_str("$ws = New-Object -ComObject WScript.Shell\n");
    let mut i: usize = 0;
    assert(shortcut_models(specs@).take(0) =~= Seq::<ShortcutModel>::empty());
    while i < specs.len()
        invariant
            i <= specs@.len(),
            r@ == "$ws = New-Object -ComObject WScript.Shell\n"@ + blocks(desktop@, shortcut_models(specs@).take(i as int)),
        decreases specs.len() - i,
    {
        let b = shortcut_block_text(desktop, &specs[i]);
        r.append(b.as_str());
        assert(shortcut_models(specs@).take(i + 1).drop_last() =~= shortcut_models(specs@).take(i as int));
        i = i + 1;
    }
    assert(shortcut_models(specs@).take(i as int) =~= shortcut_models(specs@));
    r
}

/// The script that creates the shortcuts of the installation at `root`
/// whose executable is `exe`, on the current user's desktop `desktop`;
/// fails with `DesktopUnavailable` when there is no desktop folder.
pub fn create_shortcuts_script(desktop: Option<String>, root: &str, exe: &str) -> (r: Result<String, InstallError>)
    ensures
        desktop is None ==> (r matches Err(e) && e is DesktopUnavailable),
        desktop matches Some(d) ==> (r matches Ok(s) && s@ == shortcut_script_of(d@, shortcuts_of(root@, exe@))),
{
    match desktop {
        Some(d) => {
            let specs = shortcut_specs(root, exe);
            Ok(shortcut_script(d.as_str(), &specs))
        },
        None => Err(InstallError::DesktopUnavailable),
    }
}

/// The outcome of the shortcut batch: success exactly when the shell
/// reported success; otherwise its diagnostic text, verbatim.
pub fn shortcut_outcome(success: bool, stderr: &str) -> (r: Result<(), InstallError>)
    ensures
        r is Ok <==> success,
        r matches Err(e) ==> e matches InstallError::ShortcutError(m) && m@
            == "Failed to create shortcuts: "@ + stderr@,
{
    if success {
        Ok(())
    } else {
        let mut m = String::from_str("Failed to create shortcuts: ");
        m.append(stderr);
        Err(InstallError::ShortcutError(m))
    }
}

/// The outcome of an advisory step, which never fails the installation.
pub enum Advisory {
    Applied,
    Declined,
}

/// The arguments of the command that maps the sketch extension to its file
/// type.
pub fn assoc_args() -> (r: Vec<String>)
    ensures
        r@.len() == 3,
        r@[0]@ == "/c"@,
        r@[1]@ == "assoc"@,
        r@[2]@ == ".pde=ProcessingSketch"@,
{
    let mut v: Vec<String> = Vec::new();
    v.push(String::from_str("/c"));
    v.push(String::from_str("assoc"));
    v.push(String::from_str(".pde=ProcessingSketch"));
    v
}

/// The arguments of the command that makes `exe` open the sketch file type.
pub fn ftype_args(exe: &str) -> (r: Vec<String>)
    ensures
        r@.len() == 3,
        r@[0]@ == "/c"@,
        r@[1]@ == "ftype"@,
        r@[2]@ == "ProcessingSketch=\""@ + exe@ + "\" \"%1\""@,
{
    let mut v: Vec<String> = Vec::new();
    v.push(String::from_str("/c"));
    v.push(String::from_str("ftype"));
    let mut cmd = String::from_str("ProcessingSketch=\"");
    cmd.append(exe);
    cmd.append("\" \"%1\"");
    v.push(cmd);
    v
}

/// The outcome of registering the file association. Only a missing
/// executable is an error; whether the two shell commands ran or succeeded
/// only decides between `Applied` and `Declined`.
pub fn association_outcome(located: Result<String, InstallError>, assoc_ok: bool, ftype_ok: bool) -> (r: Result<Advisory, InstallError>)
    ensures
        r is Err <==> located is Err,
        located matches Err(e) ==> r == Err::<Advisory, InstallError>(e),
        r matches Ok(a) ==> (a is Applied <==> assoc_ok && ftype_ok),
{
    match located {
        Err(e) => Err(e),
        Ok(_) => if assoc_ok && ftype_ok {
            Ok(Advisory::Applied)
        } else {
            Ok(Advisory::Declined)
        },
    }
}

} // verus!
