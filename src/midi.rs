use vstd::prelude::*;

verus! {

/// The identity of a MIDI port.
#[derive(Clone, Copy, Debug, PartialEq, Eq, Structural, Hash)]
pub struct MidiPortId(pub u64);

/// One MIDI message: status byte and two data bytes.
#[derive(Clone, Copy, Debug, PartialEq, Eq)]
pub struct MidiData {
    pub data: [u8; 3],
}

/// Whether a port delivers messages to us or takes them from us.
#[derive(Clone, Copy, Debug, PartialEq, Eq, Structural)]
pub enum MidiPortType {
    Input,
    Output,
}

impl MidiPortType {
    pub fn is_input(&self) -> (r: bool)
        ensures
            r == (*self == MidiPortType::Input),
    {
        match self {
            MidiPortType::Input => true,
            MidiPortType::Output => false,
        }
    }

    pub fn is_output(&self) -> (r: bool)
        ensures
            r == (*self == MidiPortType::Output),
    {
        match self {
            MidiPortType::Input => false,
            MidiPortType::Output => true,
        }
    }
}

/// What the system reports about a port.
#[derive(Clone, Debug)]
pub struct MidiPortDesc {
    pub name: String,
    pub port_id: MidiPortId,
    pub port_type: MidiPortType,
}

/// A port as the system names it, with its description.
#[derive(Clone, Debug)]
pub struct WinRTMidiPort {
    pub winrt_id: String,
    pub desc: MidiPortDesc,
}

/// An input port that is open, with the token of its message handler.
#[derive(Clone, Copy, Debug, PartialEq, Eq, Structural)]
pub struct WinRTMidiInput {
    pub port_id: MidiPortId,
    pub event_token: i64,
}

/// An output port that is open.
#[derive(Clone, Copy, Debug, PartialEq, Eq, Structural)]
pub struct WinRTMidiOutput {
    pub port_id: MidiPortId,
}

/// A request to the thread that talks to the system's MIDI service.
#[derive(Clone, Debug)]
pub enum WinRTMidiEvent {
    UpdateDevices,
    SendMidi(Option<MidiPortId>, MidiData),
    Terminate,
    UseMidiInputs(Vec<MidiPortId>),
    UseMidiOutputs(Vec<MidiPortId>),
}

/// The content of a request.
pub enum MidiEventModel {
    UpdateDevices,
    SendMidi(Option<MidiPortId>, MidiData),
    Terminate,
    UseMidiInputs(Seq<MidiPortId>),
    UseMidiOutputs(Seq<MidiPortId>),
}

impl WinRTMidiEvent {
    pub open spec fn view(&self) -> MidiEventModel {
        match self {
            WinRTMidiEvent::UpdateDevices => MidiEventModel::UpdateDevices,
            WinRTMidiEvent::SendMidi(p, d) => MidiEventModel::SendMidi(*p, *d),
            WinRTMidiEvent::Terminate => MidiEventModel::Terminate,
            WinRTMidiEvent::UseMidiInputs(v) => MidiEventModel::UseMidiInputs(v@),
            WinRTMidiEvent::UseMidiOutputs(v) => MidiEventModel::UseMidiOutputs(v@),
        }
    }
}

/// The contents of a sequence of requests.
pub open spec fn event_models(v: Seq<WinRTMidiEvent>) -> Seq<MidiEventModel> {
    Seq::new(v.len(), |i: int| v[i].view())
}

/// A listener for incoming messages: the index of its registration.
#[derive(Clone, Copy, Debug, PartialEq, Eq, Structural)]
pub struct MidiInput(pub Option<usize>);

/// The MIDI service as the application sees it: the ports last reported, the
/// listeners registered for incoming messages, and the requests not yet handed
/// to the service thread, oldest first.
#[derive(Debug)]
pub struct WinRTMidiAccess {
    input_senders: usize,
    events: Vec<WinRTMidiEvent>,
    descs: Vec<MidiPortDesc>,
}

fn copy_port_ids(ports: &[MidiPortId]) -> (r: Vec<MidiPortId>)
    ensures
        r@ == ports@,
{
    let mut r: Vec<MidiPortId> = Vec::new();
    let mut i: usize = 0;
    while i < ports.len()
        invariant
            i <= ports@.len(),
            r@ == ports@.subrange(0, i as int),
        decreases ports@.len() - i,
    {
        r.push(ports[i]);
        i = i + 1;
    }
    assert(r@ =~= ports@);
    r
}

impl WinRTMidiAccess {
    pub closed spec fn events_view(&self) -> Seq<MidiEventModel> {
        event_models(self.events@)
    }

    pub closed spec fn listener_count(&self) -> usize {
        self.input_senders
    }

    pub closed spec fn descs_view(&self) -> Seq<MidiPortDesc> {
        self.descs@
    }

    /// No ports known yet, no listeners, and a request for the device list queued.
    pub fn new() -> (r: WinRTMidiAccess)
        ensures
            r.events_view() == seq![MidiEventModel::UpdateDevices],
            r.listener_count() == 0,
            r.descs_view().len() == 0,
    {
        let mut events: Vec<WinRTMidiEvent> = Vec::new();
        events.push(WinRTMidiEvent::UpdateDevices);
        let r = WinRTMidiAccess { input_senders: 0, events, descs: Vec::new() };
        assert(r.events_view() =~= seq![MidiEventModel::UpdateDevices]);
        r
    }

    fn post(&mut self, event: WinRTMidiEvent)
        ensures
            final(self).events_view() == old(self).events_view().push(event.view()),
            final(self).listener_count() == old(self).listener_count(),
            final(self).descs_view() == old(self).descs_view(),
    {
        self.events.push(event);
        assert(self.events_view() =~= old(self).events_view().push(event.view()));
    }

    /// Registers a listener for incoming messages.
    pub fn create_midi_input(&mut self) -> (r: MidiInput)
        requires
            old(self).listener_count() < usize::MAX,
        ensures
            r == MidiInput(Some(old(self).listener_count() as usize)),
            final(self).listener_count() == old(self).listener_count() + 1,
            final(self).events_view() == old(self).events_view(),
            final(self).descs_view() == old(self).descs_view(),
    {
        let index = self.input_senders;
        self.input_senders = self.input_senders + 1;
        MidiInput(Some(index))
    }

    /// Asks for exactly the output ports `ports` to be open.
    pub fn use_midi_outputs(&mut self, ports: &[MidiPortId])
        ensures
            final(self).events_view() == old(self).events_view().push(MidiEventModel::UseMidiOutputs(ports@)),
            final(self).listener_count() == old(self).listener_count(),
            final(self).descs_view() == old(self).descs_view(),
    {
        self.post(WinRTMidiEvent::UseMidiOutputs(copy_port_ids(ports)));
    }

    /// Asks for exactly the input ports `ports` to be open.
    pub fn use_midi_inputs(&mut self, ports: &[MidiPortId])
        ensures
            final(self).events_view() == old(self).events_view().push(MidiEventModel::UseMidiInputs(ports@)),
            final(self).listener_count() == old(self).listener_count(),
            final(self).descs_view() == old(self).descs_view(),
    {
        self.post(WinRTMidiEvent::UseMidiInputs(copy_port_ids(ports)));
    }

    /// Asks for `data` to be sent to output `port_id`, or to every open output.
    pub fn send_midi(&mut self, port_id: Option<MidiPortId>, data: MidiData)
        ensures
            final(self).events_view() == old(self).events_view().push(MidiEventModel::SendMidi(port_id, data)),
            final(self).listener_count() == old(self).listener_count(),
            final(self).descs_view() == old(self).descs_view(),
    {
        self.post(WinRTMidiEvent::SendMidi(port_id, data));
    }

    /// Asks the service thread to stop.
    pub fn terminate(&mut self)
        ensures
            final(self).events_view() == old(self).events_view().push(MidiEventModel::Terminate),
            final(self).listener_count() == old(self).listener_count(),
            final(self).descs_view() == old(self).descs_view(),
    {
        self.post(WinRTMidiEvent::Terminate);
    }

    /// The ports last reported.
    pub fn get_descs(&self) -> (r: Vec<MidiPortDesc>)
        ensures
            r@.len() == self.descs_view().len(),
            forall|i: int| 0 <= i < r@.len() ==> (#[trigger] r@[i]).port_id == self.descs_view()[i].port_id
                && r@[i].port_type == self.descs_view()[i].port_type
                && r@[i].name@ == self.descs_view()[i].name@,
    {
        let mut r: Vec<MidiPortDesc> = Vec::new();
        let mut i: usize = 0;
        while i < self.descs.len()
            invariant
                i <= self.descs@.len(),
                r@.len() == i,
                forall|k: int| 0 <= k < i ==> (#[trigger] r@[k]).port_id == self.descs@[k].port_id
                    && r@[k].port_type == self.descs@[k].port_type
                    && r@[k].name@ == self.descs@[k].name@,
            decreases self.descs@.len() - i,
        {
            let d = &self.descs[i];
            r.push(MidiPortDesc { name: d.name.clone(), port_id: d.port_id, port_type: d.port_type });
            i = i + 1;
        }
        r
    }

    /// Records the ports the service thread found.
    pub fn set_descs(&mut self, descs: Vec<MidiPortDesc>)
        ensures
            final(self).descs_view() == descs@,
            final(self).events_view() == old(self).events_view(),
            final(self).listener_count() == old(self).listener_count(),
    {
        self.descs = descs;
    }

    /// Hands over the queued requests, oldest first, leaving none queued.
    pub fn take_events(&mut self) -> (r: Vec<WinRTMidiEvent>)
        ensures
            event_models(r@) == old(self).events_view(),
            final(self).events_view().len() == 0,
            final(self).listener_count() == old(self).listener_count(),
            final(self).descs_view() == old(self).descs_view(),
    {
        let r = self.events.split_off(0);
        assert(event_models(self.events@) =~= Seq::empty());
        r
    }
}

/// The sending side of the MIDI service, as handed to the application.
#[derive(Debug)]
pub struct OsMidiOutput(pub WinRTMidiAccess);

impl OsMidiOutput {
    /// Asks for `d` to be sent to output `port_id`, or to every open output.
    pub fn send(&mut self, port_id: Option<MidiPortId>, d: MidiData)
        ensures
            final(self).0.events_view() == old(self).0.events_view().push(MidiEventModel::SendMidi(port_id, d)),
            final(self).0.listener_count() == old(self).0.listener_count(),
            final(self).0.descs_view() == old(self).0.descs_view(),
    {
        self.0.send_midi(port_id, d);
    }
}


/// Something the service thread must do with the system's MIDI service.
#[derive(Clone, Debug)]
pub enum MidiAction {
    /// Query the ports again and report them.
    RefreshPorts,
    OpenOutput { port_id: MidiPortId, winrt_id: String },
    CloseOutput { port_id: MidiPortId },
    /// Open the input and report the token of its message handler back.
    OpenInput { port_id: MidiPortId, winrt_id: String },
    CloseInput { port_id: MidiPortId, event_token: i64 },
    Send { port_id: MidiPortId, data: MidiData },
    Stop,
}

/// The content of an action.
pub enum MidiActionModel {
    RefreshPorts,
    OpenOutput(MidiPortId, Seq<char>),
    CloseOutput(MidiPortId),
    OpenInput(MidiPortId, Seq<char>),
    CloseInput(MidiPortId, i64),
    Send(MidiPortId, MidiData),
    Stop,
}

impl MidiAction {
    pub open spec fn view(&self) -> MidiActionModel {
        match self {
            MidiAction::RefreshPorts => MidiActionModel::RefreshPorts,
            MidiAction::OpenOutput { port_id, winrt_id } => MidiActionModel::OpenOutput(*port_id, winrt_id@),
            MidiAction::CloseOutput { port_id } => MidiActionModel::CloseOutput(*port_id),
            MidiAction::OpenInput { port_id, winrt_id } => MidiActionModel::OpenInput(*port_id, winrt_id@),
            MidiAction::CloseInput { port_id, event_token } => MidiActionModel::CloseInput(*port_id, *event_token),
            MidiAction::Send { port_id, data } => MidiActionModel::Send(*port_id, *data),
            MidiAction::Stop => MidiActionModel::Stop,
        }
    }
}

pub open spec fn action_models(v: Seq<MidiAction>) -> Seq<MidiActionModel> {
    Seq::new(v.len(), |i: int| v[i].view())
}

/// The index of the first port with identity `id` and type `ty`.
pub open spec fn find_port(ports: Seq<WinRTMidiPort>, id: MidiPortId, ty: MidiPortType) -> Option<int>
    decreases ports.len(),
{
    if ports.len() == 0 {
        None
    } else {
        match find_port(ports.drop_last(), id, ty) {
            Some(i) => Some(i),
            None => if ports.last().desc.port_id == id && ports.last().desc.port_type == ty { Some(ports.len() - 1) } else { None },
        }
    }
}

/// The ports to open for the requested identities, in request order: for each
/// identity, the first port of type `ty` that has it, if any.
pub open spec fn ports_to_open(ports: Seq<WinRTMidiPort>, req: Seq<MidiPortId>, ty: MidiPortType) -> Seq<(MidiPortId, Seq<char>)>
    decreases req.len(),
{
    if req.len() == 0 {
        seq![]
    } else {
        let rest = ports_to_open(ports, req.drop_last(), ty);
        match find_port(ports, req.last(), ty) {
            Some(i) => rest.push((req.last(), ports[i].winrt_id@)),
            None => rest,
        }
    }
}

/// The outputs sent `port_id`'s messages: all open ones for `None`, else those with that identity.
pub open spec fn send_targets(outputs: Seq<WinRTMidiOutput>, port_id: Option<MidiPortId>) -> Seq<MidiPortId>
    decreases outputs.len(),
{
    if outputs.len() == 0 {
        seq![]
    } else {
        let rest = send_targets(outputs.drop_last(), port_id);
        let o = outputs.last();
        if port_id is None || port_id == Some(o.port_id) { rest.push(o.port_id) } else { rest }
    }
}

/// The index of the first open output with identity `id`.
pub open spec fn first_output(outs: Seq<WinRTMidiOutput>, id: MidiPortId) -> Option<int>
    decreases outs.len(),
{
    if outs.len() == 0 {
        None
    } else {
        match first_output(outs.drop_last(), id) {
            Some(i) => Some(i),
            None => if outs.last().port_id == id { Some(outs.len() - 1) } else { None },
        }
    }
}

/// The index of the first open input with identity `id`.
pub open spec fn first_input(ins: Seq<WinRTMidiInput>, id: MidiPortId) -> Option<int>
    decreases ins.len(),
{
    if ins.len() == 0 {
        None
    } else {
        match first_input(ins.drop_last(), id) {
            Some(i) => Some(i),
            None => if ins.last().port_id == id { Some(ins.len() - 1) } else { None },
        }
    }
}

/// Walking the ports in order, each output port not in `req` closes the first
/// open output with its identity, if any: the identities closed, and the outputs left.
pub open spec fn close_outputs(ports: Seq<WinRTMidiPort>, req: Seq<MidiPortId>, open: Seq<WinRTMidiOutput>) -> (Seq<MidiPortId>, Seq<WinRTMidiOutput>)
    decreases ports.len(),
{
    if ports.len() == 0 {
        (seq![], open)
    } else {
        let (closed, left) = close_outputs(ports.drop_last(), req, open);
        let d = ports.last().desc;
        if d.port_type == MidiPortType::Output && !req.contains(d.port_id) {
            match first_output(left, d.port_id) {
                Some(i) => (closed.push(d.port_id), left.remove(i)),
                None => (closed, left),
            }
        } else {
            (closed, left)
        }
    }
}

/// As `close_outputs`, for the input ports: the inputs closed, and the inputs left.
pub open spec fn close_inputs(ports: Seq<WinRTMidiPort>, req: Seq<MidiPortId>, open: Seq<WinRTMidiInput>) -> (Seq<WinRTMidiInput>, Seq<WinRTMidiInput>)
    decreases ports.len(),
{
    if ports.len() == 0 {
        (seq![], open)
    } else {
        let (closed, left) = close_inputs(ports.drop_last(), req, open);
        let d = ports.last().desc;
        if d.port_type == MidiPortType::Input && !req.contains(d.port_id) {
            match first_input(left, d.port_id) {
                Some(i) => (closed.push(left[i]), left.remove(i)),
                None => (closed, left),
            }
        } else {
            (closed, left)
        }
    }
}

/// The outputs opened for `opened`, in order.
pub open spec fn outputs_for(opened: Seq<(MidiPortId, Seq<char>)>) -> Seq<WinRTMidiOutput> {
    Seq::new(opened.len(), |k: int| WinRTMidiOutput { port_id: opened[k].0 })
}

/// The decisions of the service thread, without its calls into the system: the
/// ports last found, and the inputs and outputs it holds open.
#[derive(Debug)]
pub struct MidiWorker {
    ports: Vec<WinRTMidiPort>,
    inputs: Vec<WinRTMidiInput>,
    outputs: Vec<WinRTMidiOutput>,
}

impl MidiWorker {
    pub closed spec fn ports_view(&self) -> Seq<WinRTMidiPort> {
        self.ports@
    }

    pub closed spec fn inputs_view(&self) -> Seq<WinRTMidiInput> {
        self.inputs@
    }

    pub closed spec fn outputs_view(&self) -> Seq<WinRTMidiOutput> {
        self.outputs@
    }

    pub fn new() -> (r: MidiWorker)
        ensures
            r.ports_view().len() == 0,
            r.inputs_view().len() == 0,
            r.outputs_view().len() == 0,
    {
        MidiWorker { ports: Vec::new(), inputs: Vec::new(), outputs: Vec::new() }
    }

    /// The index of the first port with identity `id` and type `ty`.
    fn find_port(&self, id: MidiPortId, ty: MidiPortType) -> (r: Option<usize>)
        ensures
            r matches Some(i) ==> find_port(self.ports@, id, ty) == Some(i as int) && i < self.ports@.len(),
            r is None ==> find_port(self.ports@, id, ty) is None,
    {
        let mut i: usize = 0;
        proof {
            assert(self.ports@.subrange(0, 0) =~= Seq::<WinRTMidiPort>::empty());
        }
        while i < self.ports.len()
            invariant
                i <= self.ports@.len(),
                find_port(self.ports@.subrange(0, i as int), id, ty) is None,
            decreases self.ports@.len() - i,
        {
            let ghost pre = self.ports@.subrange(0, i + 1);
            assert(pre.drop_last() =~= self.ports@.subrange(0, i as int));
            if self.ports[i].desc.port_id == id && self.ports[i].desc.port_type == ty {
                proof {
                    lemma_find_port_prefix(self.ports@, id, ty, i + 1);
                }
                return Some(i);
            }
            i = i + 1;
        }
        assert(self.ports@.subrange(0, i as int) =~= self.ports@);
        None
    }

    /// Records the ports found by a refresh and returns their descriptions.
    pub fn set_ports(&mut self, ports: Vec<WinRTMidiPort>) -> (r: Vec<MidiPortDesc>)
        ensures
            final(self).ports_view() == ports@,
            final(self).inputs_view() == old(self).inputs_view(),
            final(self).outputs_view() == old(self).outputs_view(),
            r@.len() == ports@.len(),
            forall|i: int| 0 <= i < r@.len() ==> (#[trigger] r@[i]).port_id == ports@[i].desc.port_id
                && r@[i].port_type == ports@[i].desc.port_type && r@[i].name@ == ports@[i].desc.name@,
    {
        self.ports = ports;
        let mut r: Vec<MidiPortDesc> = Vec::new();
        let mut i: usize = 0;
        while i < self.ports.len()
            invariant
                i <= self.ports@.len(),
                self.ports@ == ports@,
                self.inputs == old(self).inputs,
                self.outputs == old(self).outputs,
                r@.len() == i,
                forall|k: int| 0 <= k < i ==> (#[trigger] r@[k]).port_id == ports@[k].desc.port_id
                    && r@[k].port_type == ports@[k].desc.port_type && r@[k].name@ == ports@[k].desc.name@,
            decreases self.ports@.len() - i,
        {
            let d = &self.ports[i].desc;
            r.push(MidiPortDesc { name: d.name.clone(), port_id: d.port_id, port_type: d.port_type });
            i = i + 1;
        }
        r
    }

    /// Records an input that was opened, with the token of its message handler.
    pub fn input_opened(&mut self, port_id: MidiPortId, event_token: i64)
        ensures
            final(self).inputs_view() == old(self).inputs_view().push(WinRTMidiInput { port_id, event_token }),
            final(self).ports_view() == old(self).ports_view(),
            final(self).outputs_view() == old(self).outputs_view(),
    {
        self.inputs.push(WinRTMidiInput { port_id, event_token });
    }

    /// The actions for sending `data` to output `port_id`, or to every open output.
    fn send_actions(&self, port_id: Option<MidiPortId>, data: MidiData) -> (r: Vec<MidiAction>)
        ensures
            action_models(r@) == Seq::new(send_targets(self.outputs@, port_id).len(), |k: int| MidiActionModel::Send(send_targets(self.outputs@, port_id)[k], data)),
    {
        let mut r: Vec<MidiAction> = Vec::new();
        let mut i: usize = 0;
        proof {
            assert(self.outputs@.subrange(0, 0) =~= Seq::<WinRTMidiOutput>::empty());
        }
        while i < self.outputs.len()
            invariant
                i <= self.outputs@.len(),
                action_models(r@) == Seq::new(send_targets(self.outputs@.subrange(0, i as int), port_id).len(),
                    |k: int| MidiActionModel::Send(send_targets(self.outputs@.subrange(0, i as int), port_id)[k], data)),
            decreases self.outputs@.len() - i,
        {
            let ghost pre = self.outputs@.subrange(0, i + 1);
            assert(pre.drop_last() =~= self.outputs@.subrange(0, i as int));
            let o = self.outputs[i];
            let targeted = match port_id {
                None => true,
                Some(p) => p == o.port_id,
            };
            let ghost prev_targets = send_targets(self.outputs@.subrange(0, i as int), port_id);
            assert(pre.last() == o);
            let ghost before = r@;
            if targeted {
                r.push(MidiAction::Send { port_id: o.port_id, data });
                assert(send_targets(pre, port_id) == prev_targets.push(o.port_id));
                assert(action_models(r@) =~= action_models(before).push(MidiActionModel::Send(o.port_id, data)));
            } else {
                assert(send_targets(pre, port_id) == prev_targets);
            }
            i = i + 1;
            assert(action_models(r@) =~= Seq::new(send_targets(self.outputs@.subrange(0, i as int), port_id).len(),
                |k: int| MidiActionModel::Send(send_targets(self.outputs@.subrange(0, i as int), port_id)[k], data)));
        }
        assert(self.outputs@.subrange(0, i as int) =~= self.outputs@);
        r
    }

    /// The index of the first open output with identity `id`.
    fn find_output(&self, id: MidiPortId) -> (r: Option<usize>)
        ensures
            r matches Some(i) ==> first_output(self.outputs@, id) == Some(i as int) && i < self.outputs@.len(),
            r is None ==> first_output(self.outputs@, id) is None,
    {
        let mut i: usize = 0;
        proof {
            assert(self.outputs@.subrange(0, 0) =~= Seq::<WinRTMidiOutput>::empty());
        }
        while i < self.outputs.len()
            invariant
                i <= self.outputs@.len(),
                first_output(self.outputs@.subrange(0, i as int), id) is None,
            decreases self.outputs@.len() - i,
        {
            let ghost pre = self.outputs@.subrange(0, i + 1);
            assert(pre.drop_last() =~= self.outputs@.subrange(0, i as int));
            if self.outputs[i].port_id == id {
                proof {
                    lemma_first_output_prefix(self.outputs@, id, i + 1);
                }
                return Some(i);
            }
            i = i + 1;
        }
        assert(self.outputs@.subrange(0, i as int) =~= self.outputs@);
        None
    }

    /// The index of the first open input with identity `id`.
    fn find_input(&self, id: MidiPortId) -> (r: Option<usize>)
        ensures
            r matches Some(i) ==> first_input(self.inputs@, id) == Some(i as int) && i < self.inputs@.len(),
            r is None ==> first_input(self.inputs@, id) is None,
    {
        let mut i: usize = 0;
        proof {
            assert(self.inputs@.subrange(0, 0) =~= Seq::<WinRTMidiInput>::empty());
        }
        while i < self.inputs.len()
            invariant
                i <= self.inputs@.len(),
                first_input(self.inputs@.subrange(0, i as int), id) is None,
            decreases self.inputs@.len() - i,
        {
            let ghost pre = self.inputs@.subrange(0, i + 1);
            assert(pre.drop_last() =~= self.inputs@.subrange(0, i as int));
            if self.inputs[i].port_id == id {
                proof {
                    lemma_first_input_prefix(self.inputs@, id, i + 1);
                }
                return Some(i);
            }
            i = i + 1;
        }
        assert(self.inputs@.subrange(0, i as int) =~= self.inputs@);
        None
    }

    /// Closes the outputs of the output ports not in `req`; returns the actions.
    fn close_unrequested_outputs(&mut self, req: &Vec<MidiPortId>) -> (r: Vec<MidiAction>)
        ensures
            action_models(r@) == Seq::new(close_outputs(old(self).ports@, req@, old(self).outputs@).0.len(),
                |k: int| MidiActionModel::CloseOutput(close_outputs(old(self).ports@, req@, old(self).outputs@).0[k])),
            final(self).outputs@ == close_outputs(old(self).ports@, req@, old(self).outputs@).1,
            final(self).ports@ == old(self).ports@,
            final(self).inputs@ == old(self).inputs@,
    {
        let ghost open = self.outputs@;
        let mut r: Vec<MidiAction> = Vec::new();
        let mut j: usize = 0;
        proof {
            assert(self.ports@.subrange(0, 0) =~= Seq::<WinRTMidiPort>::empty());
        }
        while j < self.ports.len()
            invariant
                j <= self.ports@.len(),
                self.ports@ == old(self).ports@,
                self.inputs@ == old(self).inputs@,
                open == old(self).outputs@,
                self.outputs@ == close_outputs(self.ports@.subrange(0, j as int), req@, open).1,
                action_models(r@) == Seq::new(close_outputs(self.ports@.subrange(0, j as int), req@, open).0.len(),
                    |k: int| MidiActionModel::CloseOutput(close_outputs(self.ports@.subrange(0, j as int), req@, open).0[k])),
            decreases self.ports@.len() - j,
        {
            let ghost pre = self.ports@.subrange(0, j + 1);
            assert(pre.drop_last() =~= self.ports@.subrange(0, j as int));
            assert(pre.last() == self.ports@[j as int]);
            let ghost before = r@;
            let id = self.ports[j].desc.port_id;
            if self.ports[j].desc.port_type.is_output() && !contains_id(req, id) {
                match self.find_output(id) {
                    Some(i) => {
                        self.outputs.remove(i);
                        r.push(MidiAction::CloseOutput { port_id: id });
                        assert(action_models(r@) =~= action_models(before).push(MidiActionModel::CloseOutput(id)));
                    },
                    None => {},
                }
            }
            j = j + 1;
            assert(action_models(r@) =~= Seq::new(close_outputs(self.ports@.subrange(0, j as int), req@, open).0.len(),
                |k: int| MidiActionModel::CloseOutput(close_outputs(self.ports@.subrange(0, j as int), req@, open).0[k])));
        }
        assert(self.ports@.subrange(0, j as int) =~= self.ports@);
        r
    }

    /// Closes the inputs of the input ports not in `req`; returns the actions.
    fn close_unrequested_inputs(&mut self, req: &Vec<MidiPortId>) -> (r: Vec<MidiAction>)
        ensures
            action_models(r@) == Seq::new(close_inputs(old(self).ports@, req@, old(self).inputs@).0.len(),
                |k: int| MidiActionModel::CloseInput(close_inputs(old(self).ports@, req@, old(self).inputs@).0[k].port_id,
                    close_inputs(old(self).ports@, req@, old(self).inputs@).0[k].event_token)),
            final(self).inputs@ == close_inputs(old(self).ports@, req@, old(self).inputs@).1,
            final(self).ports@ == old(self).ports@,
            final(self).outputs@ == old(self).outputs@,
    {
        let ghost open = self.inputs@;
        let mut r: Vec<MidiAction> = Vec::new();
        let mut j: usize = 0;
        proof {
            assert(self.ports@.subrange(0, 0) =~= Seq::<WinRTMidiPort>::empty());
        }
        while j < self.ports.len()
            invariant
                j <= self.ports@.len(),
                self.ports@ == old(self).ports@,
                self.outputs@ == old(self).outputs@,
                open == old(self).inputs@,
                self.inputs@ == close_inputs(self.ports@.subrange(0, j as int), req@, open).1,
                action_models(r@) == Seq::new(close_inputs(self.ports@.subrange(0, j as int), req@, open).0.len(),
                    |k: int| MidiActionModel::CloseInput(close_inputs(self.ports@.subrange(0, j as int), req@, open).0[k].port_id,
                        close_inputs(self.ports@.subrange(0, j as int), req@, open).0[k].event_token)),
            decreases self.ports@.len() - j,
        {
            let ghost pre = self.ports@.subrange(0, j + 1);
            assert(pre.drop_last() =~= self.ports@.subrange(0, j as int));
            assert(pre.last() == self.ports@[j as int]);
            let ghost before = r@;
            let id = self.ports[j].desc.port_id;
            if self.ports[j].desc.port_type.is_input() && !contains_id(req, id) {
                match self.find_input(id) {
                    Some(i) => {
                        let closed = self.inputs.remove(i);
                        r.push(MidiAction::CloseInput { port_id: closed.port_id, event_token: closed.event_token });
                        assert(action_models(r@) =~= action_models(before).push(MidiActionModel::CloseInput(closed.port_id, closed.event_token)));
                    },
                    None => {},
                }
            }
            j = j + 1;
            assert(action_models(r@) =~= Seq::new(close_inputs(self.ports@.subrange(0, j as int), req@, open).0.len(),
                |k: int| MidiActionModel::CloseInput(close_inputs(self.ports@.subrange(0, j as int), req@, open).0[k].port_id,
                    close_inputs(self.ports@.subrange(0, j as int), req@, open).0[k].event_token)));
        }
        assert(self.ports@.subrange(0, j as int) =~= self.ports@);
        r
    }

    /// Decides what to do about one request: the actions for the system's MIDI
    /// service, in order. Outputs count as open from their action on; inputs once
    /// `input_opened` reports their handler.
    pub fn handle_event(&mut self, event: &WinRTMidiEvent) -> (r: Vec<MidiAction>)
        ensures
            final(self).ports_view() == old(self).ports_view(),
            match event.view() {
                MidiEventModel::UpdateDevices => action_models(r@) == seq![MidiActionModel::RefreshPorts]
                    && final(self).inputs_view() == old(self).inputs_view() && final(self).outputs_view() == old(self).outputs_view(),
                MidiEventModel::Terminate => action_models(r@) == seq![MidiActionModel::Stop]
                    && final(self).inputs_view() == old(self).inputs_view() && final(self).outputs_view() == old(self).outputs_view(),
                MidiEventModel::SendMidi(port_id, data) => action_models(r@) == Seq::new(send_targets(old(self).outputs_view(), port_id).len(),
                    |k: int| MidiActionModel::Send(send_targets(old(self).outputs_view(), port_id)[k], data))
                    && final(self).inputs_view() == old(self).inputs_view() && final(self).outputs_view() == old(self).outputs_view(),
                MidiEventModel::UseMidiOutputs(req) => {
                    let opened = ports_to_open(old(self).ports_view(), req, MidiPortType::Output);
                    let closing = close_outputs(old(self).ports_view(), req, old(self).outputs_view() + outputs_for(opened));
                    &&& action_models(r@) == Seq::new(opened.len(), |k: int| MidiActionModel::OpenOutput(opened[k].0, opened[k].1))
                        + Seq::new(closing.0.len(), |k: int| MidiActionModel::CloseOutput(closing.0[k]))
                    &&& final(self).outputs_view() == closing.1
                    &&& final(self).inputs_view() == old(self).inputs_view()
                },
                MidiEventModel::UseMidiInputs(req) => {
                    let opened = ports_to_open(old(self).ports_view(), req, MidiPortType::Input);
                    let closing = close_inputs(old(self).ports_view(), req, old(self).inputs_view());
                    &&& action_models(r@) == Seq::new(opened.len(), |k: int| MidiActionModel::OpenInput(opened[k].0, opened[k].1))
                        + Seq::new(closing.0.len(), |k: int| MidiActionModel::CloseInput(closing.0[k].port_id, closing.0[k].event_token))
                    &&& final(self).inputs_view() == closing.1
                    &&& final(self).outputs_view() == old(self).outputs_view()
                },
            },
    {
        match event {
            WinRTMidiEvent::UpdateDevices => {
                let mut r: Vec<MidiAction> = Vec::new();
                r.push(MidiAction::RefreshPorts);
                assert(action_models(r@) =~= seq![MidiActionModel::RefreshPorts]);
                r
            },
            WinRTMidiEvent::Terminate => {
                let mut r: Vec<MidiAction> = Vec::new();
                r.push(MidiAction::Stop);
                assert(action_models(r@) =~= seq![MidiActionModel::Stop]);
                r
            },
            WinRTMidiEvent::SendMidi(port_id, data) => self.send_actions(*port_id, *data),
            WinRTMidiEvent::UseMidiOutputs(req) => {
                let opened = self.open_targets(req, MidiPortType::Output);
                let ghost o0 = self.outputs@;
                let ghost ov = ports_to_open(self.ports@, req@, MidiPortType::Output);
                let mut r: Vec<MidiAction> = Vec::new();
                let mut k: usize = 0;
                while k < opened.len()
                    invariant
                        k <= opened@.len(),
                        opened@.len() == ov.len(),
                        forall|j: int| 0 <= j < opened@.len() ==> (#[trigger] opened@[j]).0 == ov[j].0 && opened@[j].1@ == ov[j].1,
                        action_models(r@) == Seq::new(k as nat, |j: int| MidiActionModel::OpenOutput(ov[j].0, ov[j].1)),
                        self.outputs@ == o0 + outputs_for(ov.subrange(0, k as int)),
                        self.ports@ == old(self).ports@,
                        self.inputs@ == old(self).inputs@,
                    decreases opened@.len() - k,
                {
                    let ghost outs = self.outputs@;
                    let ghost before_push = r@;
                    let id = opened[k].0;
                    let winrt_id = opened[k].1.clone();
                    assert(winrt_id@ == ov[k as int].1);
                    r.push(MidiAction::OpenOutput { port_id: id, winrt_id });
                    assert(action_models(r@) =~= action_models(before_push).push(MidiActionModel::OpenOutput(ov[k as int].0, ov[k as int].1)));
                    self.outputs.push(WinRTMidiOutput { port_id: id });
                    k = k + 1;
                    assert(action_models(r@) =~= Seq::new(k as nat, |j: int| MidiActionModel::OpenOutput(ov[j].0, ov[j].1)));
                    assert(self.outputs@ =~= o0 + outputs_for(ov.subrange(0, k as int)));
                }
                assert(ov.subrange(0, k as int) =~= ov);
                let mut closing = self.close_unrequested_outputs(req);
                let ghost opens = r@;
                let ghost closes = closing@;
                r.append(&mut closing);
                assert(action_models(r@) =~= action_models(opens) + action_models(closes));
                r
            },
            WinRTMidiEvent::UseMidiInputs(req) => {
                let opened = self.open_targets(req, MidiPortType::Input);
                let ghost ov = ports_to_open(self.ports@, req@, MidiPortType::Input);
                let mut r: Vec<MidiAction> = Vec::new();
                let mut k: usize = 0;
                while k < opened.len()
                    invariant
                        k <= opened@.len(),
                        opened@.len() == ov.len(),
                        forall|j: int| 0 <= j < opened@.len() ==> (#[trigger] opened@[j]).0 == ov[j].0 && opened@[j].1@ == ov[j].1,
                        action_models(r@) == Seq::new(k as nat, |j: int| MidiActionModel::OpenInput(ov[j].0, ov[j].1)),
                        self.outputs@ == old(self).outputs@,
                        self.ports@ == old(self).ports@,
                        self.inputs@ == old(self).inputs@,
                    decreases opened@.len() - k,
                {
                    let ghost before_push = r@;
                    let id = opened[k].0;
                    let winrt_id = opened[k].1.clone();
                    assert(winrt_id@ == ov[k as int].1);
                    r.push(MidiAction::OpenInput { port_id: id, winrt_id });
                    assert(action_models(r@) =~= action_models(before_push).push(MidiActionModel::OpenInput(ov[k as int].0, ov[k as int].1)));
                    k = k + 1;
                    assert(action_models(r@) =~= Seq::new(k as nat, |j: int| MidiActionModel::OpenInput(ov[j].0, ov[j].1)));
                }
                let mut closing = self.close_unrequested_inputs(req);
                let ghost opens = r@;
                let ghost closes = closing@;
                r.append(&mut closing);
                assert(action_models(r@) =~= action_models(opens) + action_models(closes));
                r
            },
        }
    }

    /// The ports to open for the identities `req`, of type `ty`.
    fn open_targets(&self, req: &Vec<MidiPortId>, ty: MidiPortType) -> (r: Vec<(MidiPortId, String)>)
        ensures
            r@.len() == ports_to_open(self.ports@, req@, ty).len(),
            forall|k: int| 0 <= k < r@.len() ==> (#[trigger] r@[k]).0 == ports_to_open(self.ports@, req@, ty)[k].0
                && r@[k].1@ == ports_to_open(self.ports@, req@, ty)[k].1,
    {
        let mut r: Vec<(MidiPortId, String)> = Vec::new();
        let mut i: usize = 0;
        proof {
            assert(req@.subrange(0, 0) =~= Seq::<MidiPortId>::empty());
        }
        while i < req.len()
            invariant
                i <= req@.len(),
                r@.len() == ports_to_open(self.ports@, req@.subrange(0, i as int), ty).len(),
                forall|k: int| 0 <= k < r@.len() ==> (#[trigger] r@[k]).0 == ports_to_open(self.ports@, req@.subrange(0, i as int), ty)[k].0
                    && r@[k].1@ == ports_to_open(self.ports@, req@.subrange(0, i as int), ty)[k].1,
            decreases req@.len() - i,
        {
            let ghost pre = req@.subrange(0, i + 1);
            assert(pre.drop_last() =~= req@.subrange(0, i as int));
            let id = req[i];
            match self.find_port(id, ty) {
                Some(p) => {
                    r.push((id, self.ports[p].winrt_id.clone()));
                },
                None => {},
            }
            i = i + 1;
        }
        assert(req@.subrange(0, i as int) =~= req@);
        r
    }
}

fn contains_id(req: &Vec<MidiPortId>, id: MidiPortId) -> (r: bool)
    ensures
        r == req@.contains(id),
{
    let mut i: usize = 0;
    while i < req.len()
        invariant
            i <= req@.len(),
            forall|k: int| 0 <= k < i ==> req@[k] != id,
        decreases req@.len() - i,
    {
        if req[i] == id {
            assert(req@[i as int] == id);
            return true;
        }
        i = i + 1;
    }
    false
}

proof fn lemma_first_output_prefix(outs: Seq<WinRTMidiOutput>, id: MidiPortId, n: int)
    requires
        0 < n <= outs.len(),
        first_output(outs.subrange(0, n - 1), id) is None,
        outs[n - 1].port_id == id,
    ensures
        first_output(outs, id) == Some(n - 1),
    decreases outs.len(),
{
    if n < outs.len() {
        assert(outs.drop_last().subrange(0, n - 1) =~= outs.subrange(0, n - 1));
        lemma_first_output_prefix(outs.drop_last(), id, n);
    } else {
        assert(outs.subrange(0, n - 1) =~= outs.drop_last());
    }
}

proof fn lemma_first_input_prefix(ins: Seq<WinRTMidiInput>, id: MidiPortId, n: int)
    requires
        0 < n <= ins.len(),
        first_input(ins.subrange(0, n - 1), id) is None,
        ins[n - 1].port_id == id,
    ensures
        first_input(ins, id) == Some(n - 1),
    decreases ins.len(),
{
    if n < ins.len() {
        assert(ins.drop_last().subrange(0, n - 1) =~= ins.subrange(0, n - 1));
        lemma_first_input_prefix(ins.drop_last(), id, n);
    } else {
        assert(ins.subrange(0, n - 1) =~= ins.drop_last());
    }
}

proof fn lemma_find_port_prefix(ports: Seq<WinRTMidiPort>, id: MidiPortId, ty: MidiPortType, n: int)
    requires
        0 < n <= ports.len(),
        find_port(ports.subrange(0, n - 1), id, ty) is None,
        ports[n - 1].desc.port_id == id && ports[n - 1].desc.port_type == ty,
    ensures
        find_port(ports, id, ty) == Some(n - 1),
    decreases ports.len(),
{
    if n < ports.len() {
        assert(ports.drop_last().subrange(0, n - 1) =~= ports.subrange(0, n - 1));
        lemma_find_port_prefix(ports.drop_last(), id, ty, n);
    } else {
        assert(ports.subrange(0, n - 1) =~= ports.drop_last());
    }
}

} // verus!
