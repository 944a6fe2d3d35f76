use vstd::prelude::*;

verus! {

/// The operating system a plugin library is built for; it decides the
/// library's file-name prefix and extension.
#[derive(Debug, Clone, Copy, PartialEq, Eq)]
pub enum TargetOs {
    Windows,
    MacOs,
    /// Linux and every other Unix-like system.
    Unix,
}

/// File name of the shared library that holds plugin `name` on `os`:
/// `name.dll` on Windows, `libname.dylib` on macOS, `libname.so` elsewhere.
pub open spec fn library_file_name(name: Seq<char>, os: TargetOs) -> Seq<char> {
    match os {
        TargetOs::Windows => name + ".dll"@,
        TargetOs::MacOs => "lib"@ + name + ".dylib"@,
        TargetOs::Unix => "lib"@ + name + ".so"@,
    }
}

/// Full path of the plugin library: the directory, a `/`, then the library's
/// platform-specific file name.
pub fn build_plugin_path(plugin_name: &str, plugin_path: &str, os: TargetOs) -> (path: String)
    ensures
        path@ == plugin_path@ + "/"@ + library_file_name(plugin_name@, os),
{
    let mut path = String::from_str(plugin_path);
    path.append("/");
    match os {
        TargetOs::Windows => {
            path.append(plugin_name);
            path.append(".dll");
        },
        TargetOs::MacOs => {
            path.append("lib");
            path.append(plugin_name);
            path.append(".dylib");
        },
        TargetOs::Unix => {
            path.append("lib");
            path.append(plugin_name);
            path.append(".so");
        },
    }
    proof {
        assert(path@ == plugin_path@ + "/"@ + library_file_name(plugin_name@, os));
    }
    path
}

} // verus!
