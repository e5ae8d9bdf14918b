//! The command vocabularies of the interactive shells; the shells themselves
//! are front-end adapters.

use vstd::prelude::*;

verus! {

/// The commands the main shell completes and accepts.
pub fn get_command_list() -> (r: Vec<&'static str>)
    ensures
        r@.len() == 67,
{
    let mut r: Vec<&'static str> = Vec::new();
    r.push("start");
    r.push("stop");
    r.push("web");
    r.push("startweb");
    r.push("stopweb");
    r.push("startapi");
    r.push("stopapi");
    r.push("startgrpc");
    r.push("stopgrpc");
    r.push("register");
    r.push("login");
    r.push("addbootstrap");
    r.push("removebootstrap");
    r.push("listbootstrap");
    r.push("upload");
    r.push("download");
    r.push("share");
    r.push("peers");
    r.push("files");
    r.push("p2pfiles");
    r.push("logout");
    r.push("help");
    r.push("p2pdownload");
    r.push("aitrain");
    r.push("airecommend");
    r.push("aiaggregate");
    r.push("aiexport");
    r.push("allowpeer");
    r.push("disallowpeer");
    r.push("listallowedpeers");
    r.push("sendmessage");
    r.push("createroom");
    r.push("joinroom");
    r.push("sendroommessage");
    r.push("listrooms");
    r.push("listmessages");
    r.push("setstatus");
    r.push("listusers");
    r.push("registeruser");
    r.push("loginuser");
    r.push("logoutdevice");
    r.push("listallusers");
    r.push("searchusers");
    r.push("changeusername");
    r.push("listdevices");
    r.push("removedevice");
    r.push("whoami");
    r.push("connectpeer");
    r.push("discoverpeers");
    r.push("pingpeer");
    r.push("listknownpeers");
    r.push("removepeer");
    r.push("messagingshell");
    r.push("peerhistory");
    r.push("scanlocalpeers");
    r.push("remoteconnect");
    r.push("remoteexec");
    r.push("remotestatus");
    r.push("remotebootstrap");
    r.push("remotelogs");
    r.push("remoterestart");
    r.push("remotestop");
    r.push("remotestart");
    r.push("remoteconfig");
    r.push("remoteconfigget");
    r.push("remotebackup");
    r.push("remoterestore");
    r
}

/// The commands of the messaging shell, with their argument sketches.
pub fn get_messaging_commands() -> (r: Vec<&'static str>)
    ensures
        r@.len() == 22,
{
    let mut r: Vec<&'static str> = Vec::new();
    r.push("send");
    r.push("room");
    r.push("list");
    r.push("peers");
    r.push("ping");
    r.push("connect");
    r.push("disconnect");
    r.push("status");
    r.push("clear");
    r.push("help");
    r.push("exit");
    r.push("quit");
    r.push("send <peer> <message>");
    r.push("room create <name>");
    r.push("room join <id>");
    r.push("room list");
    r.push("room message <id> <message>");
    r.push("peers list");
    r.push("peers ping <peer>");
    r.push("peers connect <peer>");
    r.push("status set <message>");
    r.push("status show");
    r
}

} // verus!
