use code_editor::midi::{
    MidiAction, MidiData, MidiInput, MidiPortDesc, MidiPortId, MidiPortType, MidiWorker, OsMidiOutput,
    WinRTMidiAccess, WinRTMidiEvent, WinRTMidiPort,
};

fn port(id: u64, winrt_id: &str, port_type: MidiPortType) -> WinRTMidiPort {
    WinRTMidiPort {
        winrt_id: winrt_id.to_string(),
        desc: MidiPortDesc { name: format!("port {}", id), port_id: MidiPortId(id), port_type },
    }
}

fn data() -> MidiData {
    MidiData { data: [0x90, 60, 100] }
}

#[test]
fn access_queues_requests_in_order() {
    let mut access = WinRTMidiAccess::new();
    access.use_midi_outputs(&[MidiPortId(1), MidiPortId(2)]);
    access.use_midi_inputs(&[MidiPortId(3)]);
    access.send_midi(None, data());
    access.terminate();
    let events = access.take_events();
    assert_eq!(events.len(), 5);
    assert!(matches!(events[0], WinRTMidiEvent::UpdateDevices));
    match &events[1] {
        WinRTMidiEvent::UseMidiOutputs(ports) => assert_eq!(ports, &vec![MidiPortId(1), MidiPortId(2)]),
        _ => panic!("expected UseMidiOutputs"),
    }
    match &events[2] {
        WinRTMidiEvent::UseMidiInputs(ports) => assert_eq!(ports, &vec![MidiPortId(3)]),
        _ => panic!("expected UseMidiInputs"),
    }
    assert!(matches!(events[3], WinRTMidiEvent::SendMidi(None, _)));
    assert!(matches!(events[4], WinRTMidiEvent::Terminate));
    assert!(access.take_events().is_empty());
}

#[test]
fn listeners_get_consecutive_indices() {
    let mut access = WinRTMidiAccess::new();
    assert_eq!(access.create_midi_input(), MidiInput(Some(0)));
    assert_eq!(access.create_midi_input(), MidiInput(Some(1)));
}

#[test]
fn descs_are_kept_and_copied() {
    let mut access = WinRTMidiAccess::new();
    assert!(access.get_descs().is_empty());
    access.set_descs(vec![MidiPortDesc { name: "keys".to_string(), port_id: MidiPortId(7), port_type: MidiPortType::Input }]);
    let descs = access.get_descs();
    assert_eq!(descs.len(), 1);
    assert_eq!(descs[0].name, "keys");
    assert_eq!(descs[0].port_id, MidiPortId(7));
}

#[test]
fn output_send_queues_a_message() {
    let mut output = OsMidiOutput(WinRTMidiAccess::new());
    output.send(Some(MidiPortId(4)), data());
    let events = output.0.take_events();
    match &events[1] {
        WinRTMidiEvent::SendMidi(Some(id), d) => {
            assert_eq!(*id, MidiPortId(4));
            assert_eq!(d.data, [0x90, 60, 100]);
        },
        _ => panic!("expected SendMidi"),
    }
}

#[test]
fn worker_opens_requested_outputs_and_closes_others() {
    let mut worker = MidiWorker::new();
    let descs = worker.set_ports(vec![
        port(1, "out-a", MidiPortType::Output),
        port(2, "out-b", MidiPortType::Output),
        port(3, "in-a", MidiPortType::Input),
    ]);
    assert_eq!(descs.len(), 3);
    let actions = worker.handle_event(&WinRTMidiEvent::UseMidiOutputs(vec![MidiPortId(1), MidiPortId(2), MidiPortId(3)]));
    assert_eq!(actions.len(), 2);
    match &actions[0] {
        MidiAction::OpenOutput { port_id, winrt_id } => {
            assert_eq!(*port_id, MidiPortId(1));
            assert_eq!(winrt_id, "out-a");
        },
        _ => panic!("expected OpenOutput"),
    }
    let actions = worker.handle_event(&WinRTMidiEvent::UseMidiOutputs(vec![MidiPortId(2)]));
    // Port 2 is opened again, port 1 closed.
    assert_eq!(actions.len(), 2);
    assert!(matches!(&actions[0], MidiAction::OpenOutput { port_id, .. } if *port_id == MidiPortId(2)));
    assert!(matches!(&actions[1], MidiAction::CloseOutput { port_id } if *port_id == MidiPortId(1)));
}

#[test]
fn worker_sends_to_matching_outputs() {
    let mut worker = MidiWorker::new();
    worker.set_ports(vec![port(1, "a", MidiPortType::Output), port(2, "b", MidiPortType::Output)]);
    worker.handle_event(&WinRTMidiEvent::UseMidiOutputs(vec![MidiPortId(1), MidiPortId(2)]));
    let all = worker.handle_event(&WinRTMidiEvent::SendMidi(None, data()));
    assert_eq!(all.len(), 2);
    let one = worker.handle_event(&WinRTMidiEvent::SendMidi(Some(MidiPortId(2)), data()));
    assert_eq!(one.len(), 1);
    assert!(matches!(&one[0], MidiAction::Send { port_id, .. } if *port_id == MidiPortId(2)));
    let none = worker.handle_event(&WinRTMidiEvent::SendMidi(Some(MidiPortId(9)), data()));
    assert!(none.is_empty());
}

#[test]
fn worker_closes_inputs_with_their_tokens() {
    let mut worker = MidiWorker::new();
    worker.set_ports(vec![port(5, "in", MidiPortType::Input)]);
    let actions = worker.handle_event(&WinRTMidiEvent::UseMidiInputs(vec![MidiPortId(5)]));
    assert!(matches!(&actions[0], MidiAction::OpenInput { port_id, winrt_id } if *port_id == MidiPortId(5) && winrt_id == "in"));
    worker.input_opened(MidiPortId(5), 42);
    let actions = worker.handle_event(&WinRTMidiEvent::UseMidiInputs(vec![]));
    assert_eq!(actions.len(), 1);
    assert!(matches!(&actions[0], MidiAction::CloseInput { port_id, event_token } if *port_id == MidiPortId(5) && *event_token == 42));
}

#[test]
fn worker_refreshes_and_stops() {
    let mut worker = MidiWorker::new();
    assert!(matches!(worker.handle_event(&WinRTMidiEvent::UpdateDevices)[0], MidiAction::RefreshPorts));
    assert!(matches!(worker.handle_event(&WinRTMidiEvent::Terminate)[0], MidiAction::Stop));
}
