//! The fixed paths and words of the construction, byte by byte.
//!
//! Each is given twice: as a sequence for contracts, and as a function that
//! builds the value. The bytes are ASCII codes; the text stands in the
//! comment.

use crate::path::{root_part, HostPath};
use vstd::prelude::*;

verus! {

/// The path `/nix`, under which the store is expected.
pub open spec fn nix_root() -> Seq<Seq<u8>> {
    seq![
        root_part(),
        // nix
        seq![110u8, 105u8, 120u8],
    ]
}

/// The path `/nix`, under which the store is expected.
pub fn nix_root_path() -> (p: HostPath)
    ensures
        p@ == nix_root(),
{
    let mut parts: Vec<Vec<u8>> = Vec::new();
    // /
    parts.push(vec![47u8]);
    // nix
    parts.push(vec![110u8, 105u8, 120u8]);
    let p = HostPath::from_parts(parts);
    assert(p@ =~~= nix_root());
    p
}

/// The path `/dev/null`, the source of every placeholder.
pub open spec fn dev_null() -> Seq<Seq<u8>> {
    seq![
        root_part(),
        // dev
        seq![100u8, 101u8, 118u8],
        // null
        seq![110u8, 117u8, 108u8, 108u8],
    ]
}

/// The path `/dev/null`, the source of every placeholder.
pub fn dev_null_path() -> (p: HostPath)
    ensures
        p@ == dev_null(),
{
    let mut parts: Vec<Vec<u8>> = Vec::new();
    // /
    parts.push(vec![47u8]);
    // dev
    parts.push(vec![100u8, 101u8, 118u8]);
    // null
    parts.push(vec![110u8, 117u8, 108u8, 108u8]);
    let p = HostPath::from_parts(parts);
    assert(p@ =~~= dev_null());
    p
}

/// The root directory, `/`.
pub open spec fn root_dir() -> Seq<Seq<u8>> {
    seq![
        root_part(),
    ]
}

/// The root directory, `/`.
pub fn root_dir_path() -> (p: HostPath)
    ensures
        p@ == root_dir(),
{
    let mut parts: Vec<Vec<u8>> = Vec::new();
    // /
    parts.push(vec![47u8]);
    let p = HostPath::from_parts(parts);
    assert(p@ =~~= root_dir());
    p
}

/// Where the store keeps the OpenGL driver libraries: `var/nix/opengl-
/// driver/lib`.
pub open spec fn opengl_source() -> Seq<Seq<u8>> {
    seq![
        // var
        seq![118u8, 97u8, 114u8],
        // nix
        seq![110u8, 105u8, 120u8],
        // opengl-driver
        seq![
            111u8, 112u8, 101u8, 110u8, 103u8, 108u8, 45u8, 100u8, 114u8, 105u8, 118u8,
            101u8, 114u8,
        ],
        // lib
        seq![108u8, 105u8, 98u8],
    ]
}

/// Where the store keeps the OpenGL driver libraries: `var/nix/opengl-
/// driver/lib`.
pub fn opengl_source_path() -> (p: HostPath)
    ensures
        p@ == opengl_source(),
{
    let mut parts: Vec<Vec<u8>> = Vec::new();
    // var
    parts.push(vec![118u8, 97u8, 114u8]);
    // nix
    parts.push(vec![110u8, 105u8, 120u8]);
    // opengl-driver
    parts.push(vec![
        111u8, 112u8, 101u8, 110u8, 103u8, 108u8, 45u8, 100u8, 114u8, 105u8, 118u8, 101u8,
        114u8,
    ]);
    // lib
    parts.push(vec![108u8, 105u8, 98u8]);
    let p = HostPath::from_parts(parts);
    assert(p@ =~~= opengl_source());
    p
}

/// Where programs look for the OpenGL driver libraries: `run/opengl-
/// driver/lib`.
pub open spec fn opengl_target() -> Seq<Seq<u8>> {
    seq![
        // run
        seq![114u8, 117u8, 110u8],
        // opengl-driver
        seq![
            111u8, 112u8, 101u8, 110u8, 103u8, 108u8, 45u8, 100u8, 114u8, 105u8, 118u8,
            101u8, 114u8,
        ],
        // lib
        seq![108u8, 105u8, 98u8],
    ]
}

/// Where programs look for the OpenGL driver libraries: `run/opengl-
/// driver/lib`.
pub fn opengl_target_path() -> (p: HostPath)
    ensures
        p@ == opengl_target(),
{
    let mut parts: Vec<Vec<u8>> = Vec::new();
    // run
    parts.push(vec![114u8, 117u8, 110u8]);
    // opengl-driver
    parts.push(vec![
        111u8, 112u8, 101u8, 110u8, 103u8, 108u8, 45u8, 100u8, 114u8, 105u8, 118u8, 101u8,
        114u8,
    ]);
    // lib
    parts.push(vec![108u8, 105u8, 98u8]);
    let p = HostPath::from_parts(parts);
    assert(p@ =~~= opengl_target());
    p
}

/// Where the store keeps the users' profiles: `var/nix/profiles/per-user`.
pub open spec fn profiles_dir() -> Seq<Seq<u8>> {
    seq![
        // var
        seq![118u8, 97u8, 114u8],
        // nix
        seq![110u8, 105u8, 120u8],
        // profiles
        seq![112u8, 114u8, 111u8, 102u8, 105u8, 108u8, 101u8, 115u8],
        // per-user
        seq![112u8, 101u8, 114u8, 45u8, 117u8, 115u8, 101u8, 114u8],
    ]
}

/// Where the store keeps the users' profiles: `var/nix/profiles/per-user`.
pub fn profiles_dir_path() -> (p: HostPath)
    ensures
        p@ == profiles_dir(),
{
    let mut parts: Vec<Vec<u8>> = Vec::new();
    // var
    parts.push(vec![118u8, 97u8, 114u8]);
    // nix
    parts.push(vec![110u8, 105u8, 120u8]);
    // profiles
    parts.push(vec![112u8, 114u8, 111u8, 102u8, 105u8, 108u8, 101u8, 115u8]);
    // per-user
    parts.push(vec![112u8, 101u8, 114u8, 45u8, 117u8, 115u8, 101u8, 114u8]);
    let p = HostPath::from_parts(parts);
    assert(p@ =~~= profiles_dir());
    p
}

/// The name of a user's profile in the user's directory: `profile`.
pub open spec fn profile_link() -> Seq<Seq<u8>> {
    seq![
        // profile
        seq![112u8, 114u8, 111u8, 102u8, 105u8, 108u8, 101u8],
    ]
}

/// The name of a user's profile in the user's directory: `profile`.
pub fn profile_link_path() -> (p: HostPath)
    ensures
        p@ == profile_link(),
{
    let mut parts: Vec<Vec<u8>> = Vec::new();
    // profile
    parts.push(vec![112u8, 114u8, 111u8, 102u8, 105u8, 108u8, 101u8]);
    let p = HostPath::from_parts(parts);
    assert(p@ =~~= profile_link());
    p
}

/// The place of the store in the new root: `nix`.
pub open spec fn store_mount() -> Seq<Seq<u8>> {
    seq![
        // nix
        seq![110u8, 105u8, 120u8],
    ]
}

/// The place of the store in the new root: `nix`.
pub fn store_mount_path() -> (p: HostPath)
    ensures
        p@ == store_mount(),
{
    let mut parts: Vec<Vec<u8>> = Vec::new();
    // nix
    parts.push(vec![110u8, 105u8, 120u8]);
    let p = HostPath::from_parts(parts);
    assert(p@ =~~= store_mount());
    p
}

/// Where the store keeps the mount policy: `etc/nix-user-chroot/path-
/// config.toml`.
pub open spec fn policy_file() -> Seq<Seq<u8>> {
    seq![
        // etc
        seq![101u8, 116u8, 99u8],
        // nix-user-chroot
        seq![
            110u8, 105u8, 120u8, 45u8, 117u8, 115u8, 101u8, 114u8, 45u8, 99u8, 104u8, 114u8,
            111u8, 111u8, 116u8,
        ],
        // path-config.toml
        seq![
            112u8, 97u8, 116u8, 104u8, 45u8, 99u8, 111u8, 110u8, 102u8, 105u8, 103u8, 46u8,
            116u8, 111u8, 109u8, 108u8,
        ],
    ]
}

/// Where the store keeps the mount policy: `etc/nix-user-chroot/path-
/// config.toml`.
pub fn policy_file_path() -> (p: HostPath)
    ensures
        p@ == policy_file(),
{
    let mut parts: Vec<Vec<u8>> = Vec::new();
    // etc
    parts.push(vec![101u8, 116u8, 99u8]);
    // nix-user-chroot
    parts.push(vec![
        110u8, 105u8, 120u8, 45u8, 117u8, 115u8, 101u8, 114u8, 45u8, 99u8, 104u8, 114u8,
        111u8, 111u8, 116u8,
    ]);
    // path-config.toml
    parts.push(vec![
        112u8, 97u8, 116u8, 104u8, 45u8, 99u8, 111u8, 110u8, 102u8, 105u8, 103u8, 46u8,
        116u8, 111u8, 109u8, 108u8,
    ]);
    let p = HostPath::from_parts(parts);
    assert(p@ =~~= policy_file());
    p
}

/// The file `/proc/self/setgroups`.
pub open spec fn setgroups_file() -> Seq<Seq<u8>> {
    seq![
        root_part(),
        // proc
        seq![112u8, 114u8, 111u8, 99u8],
        // self
        seq![115u8, 101u8, 108u8, 102u8],
        // setgroups
        seq![115u8, 101u8, 116u8, 103u8, 114u8, 111u8, 117u8, 112u8, 115u8],
    ]
}

/// The file `/proc/self/setgroups`.
pub fn setgroups_file_path() -> (p: HostPath)
    ensures
        p@ == setgroups_file(),
{
    let mut parts: Vec<Vec<u8>> = Vec::new();
    // /
    parts.push(vec![47u8]);
    // proc
    parts.push(vec![112u8, 114u8, 111u8, 99u8]);
    // self
    parts.push(vec![115u8, 101u8, 108u8, 102u8]);
    // setgroups
    parts.push(vec![115u8, 101u8, 116u8, 103u8, 114u8, 111u8, 117u8, 112u8, 115u8]);
    let p = HostPath::from_parts(parts);
    assert(p@ =~~= setgroups_file());
    p
}

/// The file `/proc/self/uid_map`.
pub open spec fn uid_map_file() -> Seq<Seq<u8>> {
    seq![
        root_part(),
        // proc
        seq![112u8, 114u8, 111u8, 99u8],
        // self
        seq![115u8, 101u8, 108u8, 102u8],
        // uid_map
        seq![117u8, 105u8, 100u8, 95u8, 109u8, 97u8, 112u8],
    ]
}

/// The file `/proc/self/uid_map`.
pub fn uid_map_file_path() -> (p: HostPath)
    ensures
        p@ == uid_map_file(),
{
    let mut parts: Vec<Vec<u8>> = Vec::new();
    // /
    parts.push(vec![47u8]);
    // proc
    parts.push(vec![112u8, 114u8, 111u8, 99u8]);
    // self
    parts.push(vec![115u8, 101u8, 108u8, 102u8]);
    // uid_map
    parts.push(vec![117u8, 105u8, 100u8, 95u8, 109u8, 97u8, 112u8]);
    let p = HostPath::from_parts(parts);
    assert(p@ =~~= uid_map_file());
    p
}

/// The file `/proc/self/gid_map`.
pub open spec fn gid_map_file() -> Seq<Seq<u8>> {
    seq![
        root_part(),
        // proc
        seq![112u8, 114u8, 111u8, 99u8],
        // self
        seq![115u8, 101u8, 108u8, 102u8],
        // gid_map
        seq![103u8, 105u8, 100u8, 95u8, 109u8, 97u8, 112u8],
    ]
}

/// The file `/proc/self/gid_map`.
pub fn gid_map_file_path() -> (p: HostPath)
    ensures
        p@ == gid_map_file(),
{
    let mut parts: Vec<Vec<u8>> = Vec::new();
    // /
    parts.push(vec![47u8]);
    // proc
    parts.push(vec![112u8, 114u8, 111u8, 99u8]);
    // self
    parts.push(vec![115u8, 101u8, 108u8, 102u8]);
    // gid_map
    parts.push(vec![103u8, 105u8, 100u8, 95u8, 109u8, 97u8, 112u8]);
    let p = HostPath::from_parts(parts);
    assert(p@ =~~= gid_map_file());
    p
}

/// The name `nix`.
pub open spec fn nix_name() -> Seq<u8> {
    // nix
    seq![110u8, 105u8, 120u8]
}

/// The name `nix`.
pub fn nix_name_bytes() -> (s: Vec<u8>)
    ensures
        s@ == nix_name(),
{
    // nix
    let s = vec![110u8, 105u8, 120u8];
    assert(s@ =~= nix_name());
    s
}

/// The word `deny`, written to the `setgroups` file.
pub open spec fn deny_text() -> Seq<u8> {
    // deny
    seq![100u8, 101u8, 110u8, 121u8]
}

/// The word `deny`, written to the `setgroups` file.
pub fn deny_text_bytes() -> (s: Vec<u8>)
    ensures
        s@ == deny_text(),
{
    // deny
    let s = vec![100u8, 101u8, 110u8, 121u8];
    assert(s@ =~= deny_text());
    s
}

/// The name of the variable `NIX_CONF_DIR`.
pub open spec fn conf_dir_name() -> Seq<u8> {
    // NIX_CONF_DIR
    seq![78u8, 73u8, 88u8, 95u8, 67u8, 79u8, 78u8, 70u8, 95u8, 68u8, 73u8, 82u8]
}

/// The name of the variable `NIX_CONF_DIR`.
pub fn conf_dir_name_bytes() -> (s: Vec<u8>)
    ensures
        s@ == conf_dir_name(),
{
    // NIX_CONF_DIR
    let s = vec![78u8, 73u8, 88u8, 95u8, 67u8, 79u8, 78u8, 70u8, 95u8, 68u8, 73u8, 82u8];
    assert(s@ =~= conf_dir_name());
    s
}

/// The value given to `NIX_CONF_DIR`: `/nix/etc/nix`.
pub open spec fn conf_dir_value() -> Seq<u8> {
    // /nix/etc/nix
    seq![47u8, 110u8, 105u8, 120u8, 47u8, 101u8, 116u8, 99u8, 47u8, 110u8, 105u8, 120u8]
}

/// The value given to `NIX_CONF_DIR`: `/nix/etc/nix`.
pub fn conf_dir_value_bytes() -> (s: Vec<u8>)
    ensures
        s@ == conf_dir_value(),
{
    // /nix/etc/nix
    let s = vec![47u8, 110u8, 105u8, 120u8, 47u8, 101u8, 116u8, 99u8, 47u8, 110u8, 105u8, 120u8];
    assert(s@ =~= conf_dir_value());
    s
}

} // verus!
