use vstd::prelude::*;

verus! {

/// `seg` appended to the path `base` as one more component, as a path join
/// does: with a `/` between them unless `base` is empty or already ends in
/// one.
pub open spec fn path_join(base: Seq<char>, seg: Seq<char>) -> Seq<char> {
    if base.len() == 0 {
        seg
    } else if base.last() == '/' {
        base + seg
    } else {
        base + seq!['/'] + seg
    }
}

/// The file locations a daemon instance is configured with. They are paths,
/// not the material itself: each subsystem reads the files when it needs
/// them.
#[derive(Debug, Clone)]
pub struct AuraedRuntime {
    /// Certificate authority of the mesh of instances.
    pub ca_crt: String,
    /// The signed server certificate of this instance.
    pub server_crt: String,
    /// The secret key of this instance.
    pub server_key: String,
    /// The runtime directory, `/var/run/aurae` by default.
    pub runtime_dir: String,
    /// The library directory, `/var/lib/aurae` by default.
    pub library_dir: String,
}

fn join(base: &String, seg: &str) -> (r: String)
    ensures
        r@ == path_join(base@, seg@),
{
    let n = base.as_str().unicode_len();
    if n == 0 {
        return seg.to_owned();
    }
    let last = base.as_str().get_char(n - 1);
    let mut out = base.clone();
    if last != '/' {
        out.append("/");
        proof {
            reveal_strlit("/");
        }
    }
    out.append(seg);
    out
}

impl AuraedRuntime {
    /// Where OCI bundles are kept: `bundles` under the runtime directory.
    pub fn bundles_dir(&self) -> (r: String)
        ensures
            r@ == path_join(self.runtime_dir@, "bundles"@),
    {
        join(&self.runtime_dir, "bundles")
    }

    /// Where pods are kept: `pods` under the runtime directory.
    pub fn pods_dir(&self) -> (r: String)
        ensures
            r@ == path_join(self.runtime_dir@, "pods"@),
    {
        join(&self.runtime_dir, "pods")
    }

    /// The socket the daemon serves on: `aurae.sock` under the runtime
    /// directory.
    pub fn default_socket_address(&self) -> (r: String)
        ensures
            r@ == path_join(self.runtime_dir@, "aurae.sock"@),
    {
        join(&self.runtime_dir, "aurae.sock")
    }
}

impl Default for AuraedRuntime {
    fn default() -> (r: Self)
        ensures
            r.ca_crt@ == "/etc/aurae/pki/ca.crt"@,
            r.server_crt@ == "/etc/aurae/pki/_signed.server.crt"@,
            r.server_key@ == "/etc/aurae/pki/server.key"@,
            r.runtime_dir@ == "/var/run/aurae"@,
            r.library_dir@ == "/var/lib/aurae"@,
    {
        AuraedRuntime {
            ca_crt: String::from_str("/etc/aurae/pki/ca.crt"),
            server_crt: String::from_str("/etc/aurae/pki/_signed.server.crt"),
            server_key: String::from_str("/etc/aurae/pki/server.key"),
            runtime_dir: String::from_str("/var/run/aurae"),
            library_dir: String::from_str("/var/lib/aurae"),
        }
    }
}

} // verus!
