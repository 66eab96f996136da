use hyprwpe::client::{daemon_running, reply_text, send_ok, ClientError};
use hyprwpe::protocol::{
    frame, self_rss_kb, socket_path, unframe, OutputStatus, Response, Status, Target,
};

#[test]
fn socket_path_follows_xdg_runtime_dir() {
    let p = socket_path(&Some("/run/user/1000".to_string()));
    assert_eq!(p, "/run/user/1000/hyprwpe.sock");
    let p = socket_path(&None);
    assert_eq!(p, "/tmp/hyprwpe.sock");
}

#[test]
fn targets_are_shown_by_name() {
    assert_eq!(Target::All.label(), "all");
    assert_eq!(Target::Output("DP-2".to_string()).label(), "DP-2");
}

#[test]
fn a_message_takes_one_line_and_is_read_back() {
    let line = frame("{\"command\":\"ping\"}");
    assert_eq!(line, "{\"command\":\"ping\"}\n");
    assert_eq!(line.lines().count(), 1);
    assert_eq!(unframe(&line), "{\"command\":\"ping\"}");
}

#[test]
fn the_resident_size_is_read_from_the_process_status() {
    let status = "Name:\thyprwpe\nVmPeak:\t  900 kB\nVmRSS:\t   51234 kB\nVmRSS:\t 1 kB\n";
    assert_eq!(self_rss_kb(status), Some(51234));
    assert_eq!(self_rss_kb("Name:\thyprwpe\n"), None);
    assert_eq!(self_rss_kb("VmRSS:\t lots\n"), None);
    assert_eq!(self_rss_kb("VmRSS:\n"), None);
}

#[test]
fn an_empty_reply_is_no_reply() {
    assert_eq!(reply_text(" {} \n"), Ok("{}".to_string()));
    assert_eq!(reply_text(" \n"), Err(ClientError::NoReply));
    assert_eq!(reply_text(""), Err(ClientError::NoReply));
}

#[test]
fn an_error_of_the_daemon_is_a_failure() {
    assert_eq!(send_ok(Ok(Response::Done)), Ok(Response::Done));
    assert_eq!(
        send_ok(Ok(Response::Error {
            message: "no".to_string()
        })),
        Err(ClientError::Refused {
            message: "no".to_string()
        })
    );
    let lost = ClientError::Unreachable {
        reason: "gone".to_string(),
    };
    assert_eq!(send_ok(Err(lost.clone())), Err(lost));
}

#[test]
fn only_an_answer_shows_a_daemon() {
    assert!(daemon_running(&Ok(Response::Done)));
    assert!(!daemon_running(&Ok(Response::Status(Status::default()))));
    assert!(!daemon_running(&Err(ClientError::NoReply)));
    assert!(!daemon_running(&Err(ClientError::Malformed {
        reason: "x".to_string()
    })));
}

#[test]
fn a_status_is_empty_by_default() {
    let s = Status::default();
    assert_eq!(s.outputs, Vec::<OutputStatus>::new());
    assert!(!s.paused && s.rss_kb.is_none());
}
