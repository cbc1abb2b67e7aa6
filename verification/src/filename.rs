//! Names of the files, and who may read and write them.
//!
//! The first byte of a tag tells the kind of the file. A package list is
//! `[0]`, the CAP file of a package `[1, pkg]`, a static field
//! `[2, pkg, id]`, and a field of an applet `[3, applet, pkg, class, field]`.
//! Anybody reads the first three kinds; only the installer writes package
//! lists and CAP files; the field of an applet belongs to the context of the
//! applet alone.

use crate::context::ContextID;
use vstd::prelude::*;

verus! {

/// Kind of a package list
pub const PKG_LIST: u8 = 0x00;

/// Kind of a CAP file
pub const CAP: u8 = 0x01;

/// Kind of a static field
pub const STATIC: u8 = 0x02;

/// Kind of a field of an applet
pub const APPLET_FIELD: u8 = 0x03;

/// Number of the context that installs packages
pub const INSTALLER: usize = 2;

/// Whether the context of number `id` may read the file `tag`: a tag of one
/// of the first three kinds, or a field of the applet that the context is.
pub open spec fn may_read(id: int, tag: Seq<u8>) -> bool {
    tag.len() >= 1 && if tag[0] == PKG_LIST || tag[0] == CAP || tag[0] == STATIC {
        true
    } else if tag[0] == APPLET_FIELD {
        tag.len() >= 2 && tag[1] == id % 256
    } else {
        false
    }
}

/// Whether the context of number `id` may write the file `tag`: the tag has
/// the length of its kind, and the context is the installer for the package
/// list and the CAP files, and the applet for a field of an applet.
pub open spec fn may_write(id: int, tag: Seq<u8>) -> bool {
    tag.len() >= 1 && if tag[0] == PKG_LIST {
        id == INSTALLER && tag.len() == 1
    } else if tag[0] == CAP {
        id == INSTALLER && tag.len() == 2
    } else if tag[0] == STATIC {
        tag.len() == 3
    } else if tag[0] == APPLET_FIELD {
        tag.len() == 5 && tag[1] == id % 256
    } else {
        false
    }
}

/// Whether `tag` names an applet, that is a CAP file.
pub open spec fn names_applet(tag: Seq<u8>) -> bool {
    tag.len() == 2 && tag[0] == CAP
}

/// Whether `context` may read the file `tag`
pub fn can_read(context: ContextID, tag: &[u8]) -> (r: bool)
    ensures
        r == may_read(context.id_spec() as int, tag@),
{
    if tag.len() < 1 {
        return false;
    }
    let kind = tag[0];
    if kind == PKG_LIST {
        true
    } else if kind == CAP {
        true
    } else if kind == STATIC {
        true
    } else if kind == APPLET_FIELD {
        tag.len() >= 2 && tag[1] == (context.id() % 256) as u8
    } else {
        false
    }
}

/// Whether `context` may write the file `tag`
pub fn can_write(context: ContextID, tag: &[u8]) -> (r: bool)
    ensures
        r == may_write(context.id_spec() as int, tag@),
{
    if tag.len() < 1 {
        return false;
    }
    let kind = tag[0];
    if kind == PKG_LIST {
        context.id() == INSTALLER && tag.len() == 1
    } else if kind == CAP {
        context.id() == INSTALLER && tag.len() == 2
    } else if kind == STATIC {
        tag.len() == 3
    } else if kind == APPLET_FIELD {
        tag.len() == 5 && tag[1] == (context.id() % 256) as u8
    } else {
        false
    }
}

/// Whether `tag` names an applet: applets are written through their own
/// syscall
pub fn is_applet(tag: &[u8]) -> (r: bool)
    ensures
        r == names_applet(tag@),
{
    tag.len() == 2 && tag[0] == CAP
}

/// Writes to (`tagret`, `lenret`) the path to the package list file
pub fn package_list(tagret: &mut [u8; 32], lenret: &mut u8)
    ensures
        *final(lenret) == 1,
        final(tagret)@ == old(tagret)@.update(0, PKG_LIST),
{
    tagret[0] = PKG_LIST;
    *lenret = 1;
}

/// Writes to (`tagret`, `lenret`) the path to the CAP file of package `pkg`
pub fn cap(pkg: u8, tagret: &mut [u8; 32], lenret: &mut u8)
    ensures
        *final(lenret) == 2,
        final(tagret)@ == old(tagret)@.update(0, CAP).update(1, pkg),
{
    tagret[0] = CAP;
    tagret[1] = pkg;
    *lenret = 2;
}

/// Writes to (`tagret`, `lenret`) the path to the `static_id`-th static of
/// package `pkg`
pub fn static_field(pkg: u8, static_id: u8, tagret: &mut [u8; 32], lenret: &mut u8)
    ensures
        *final(lenret) == 3,
        final(tagret)@ == old(tagret)@.update(0, STATIC).update(1, pkg).update(2, static_id),
{
    tagret[0] = STATIC;
    tagret[1] = pkg;
    tagret[2] = static_id;
    *lenret = 3;
}

/// Writes to (`tagret`, `lenret`) the path to the `field`-th field of applet
/// `applet` in class `claz` of package `pkg`
pub fn applet_field(
    applet: u8,
    pkg: u8,
    claz: u8,
    field: u8,
    tagret: &mut [u8; 32],
    lenret: &mut u8,
)
    ensures
        *final(lenret) == 5,
        final(tagret)@ == old(tagret)@.update(0, APPLET_FIELD).update(1, applet).update(
            2,
            pkg,
        ).update(3, claz).update(4, field),
{
    tagret[0] = APPLET_FIELD;
    tagret[1] = applet;
    tagret[2] = pkg;
    tagret[3] = claz;
    tagret[4] = field;
    *lenret = 5;
}

/// The paths come out as the kinds prescribe, and each can be written by the
/// context that the rules name for it.
pub proof fn lemma_paths(id: int, pkg: u8, static_id: u8, applet: u8, claz: u8, field: u8)
    ensures
        may_write(id, seq![PKG_LIST]) <==> id == INSTALLER,
        may_write(id, seq![CAP, pkg]) <==> id == INSTALLER,
        may_write(id, seq![STATIC, pkg, static_id]),
        may_write(id, seq![APPLET_FIELD, applet, pkg, claz, field]) <==> applet == id % 256,
        may_read(id, seq![APPLET_FIELD, applet, pkg, claz, field]) <==> applet == id % 256,
        names_applet(seq![CAP, pkg]),
        !names_applet(seq![STATIC, pkg, static_id]),
{
}

} // verus!
