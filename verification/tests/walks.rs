use hey_listen::rc::{execute_dispatcher_requests, DispatcherRequest};
use hey_listen::sync::{execute_sync_dispatcher_requests, PriorityDispatcherResult};

fn map_usize_to_request(x: &usize) -> Option<DispatcherRequest> {
    match *x {
        0 => Some(DispatcherRequest::StopListening),
        1 => Some(DispatcherRequest::StopPropagation),
        2 => Some(DispatcherRequest::StopListeningAndPropagation),
        _ => None,
    }
}

fn map_usize_to_sync_request(x: &usize) -> Option<PriorityDispatcherResult> {
    match *x {
        0 => Some(PriorityDispatcherResult::StopListening),
        1 => Some(PriorityDispatcherResult::StopPropagation),
        2 => Some(PriorityDispatcherResult::StopListeningAndPropagation),
        _ => None,
    }
}

#[test]
fn stop_listening() {
    let mut vec = vec![0, 0, 0, 1, 1, 1, 1];
    execute_dispatcher_requests(&mut vec, map_usize_to_request);

    assert_eq!(vec, [1, 0, 0, 1, 1, 1]);
}

#[test]
fn empty_vec() {
    let mut vec: Vec<usize> = Vec::new();
    execute_dispatcher_requests(&mut vec, map_usize_to_request);

    assert!(vec.is_empty());
}

#[test]
fn removing_all() {
    let mut vec = vec![0, 0, 0, 0, 0, 0, 0];
    execute_dispatcher_requests(&mut vec, map_usize_to_request);

    assert!(vec.is_empty());
}

#[test]
fn remove_one_element_and_stop() {
    let mut vec = vec![2, 0];
    execute_dispatcher_requests(&mut vec, map_usize_to_request);

    assert_eq!(vec, [0]);
}

#[test]
fn mod_stop_listening() {
    let mut vec = vec![0, 0, 0, 1, 1, 1, 1];
    execute_sync_dispatcher_requests(&mut vec, map_usize_to_sync_request);

    assert_eq!(vec, [1, 0, 0, 1, 1, 1]);
}

#[test]
fn mod_empty_vec() {
    let mut vec: Vec<usize> = Vec::new();
    execute_sync_dispatcher_requests(&mut vec, map_usize_to_sync_request);

    assert!(vec.is_empty());
}

#[test]
fn mod_removing_all() {
    let mut vec = vec![0, 0, 0, 0, 0, 0, 0];
    execute_sync_dispatcher_requests(&mut vec, map_usize_to_sync_request);

    assert!(vec.is_empty());
}

#[test]
fn mod_remove_one_element_and_stop() {
    let mut vec = vec![2, 0];
    execute_sync_dispatcher_requests(&mut vec, map_usize_to_sync_request);

    assert_eq!(vec, [0]);
}
