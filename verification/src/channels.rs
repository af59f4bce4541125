use vstd::prelude::*;

verus! {

/// Where a forwarded chunk must be written.
pub enum Destination {
    /// The spawned process's standard input.
    ProcessStdin,
    /// The network connection back to the remote peer.
    RemotePeer,
    /// The local diagnostic sink; never the network.
    DiagnosticSink,
}

/// The data plane of one session: three byte-transparent forwarding
/// channels, each owning one direction. The ghost transcripts record every
/// byte that entered and left each channel, so byte transparency - nothing
/// dropped, duplicated or reordered, and stderr never routed to the peer -
/// is stated over whole histories, not single chunks.
pub struct RelayChannels {
    /// Bytes read so far from the connection (inbound source).
    pub from_peer: Ghost<Seq<u8>>,
    /// Bytes handed so far to the process's standard input.
    pub to_process: Ghost<Seq<u8>>,
    /// Bytes read so far from the process's standard output.
    pub from_process: Ghost<Seq<u8>>,
    /// Bytes handed so far to the connection's write side.
    pub to_peer: Ghost<Seq<u8>>,
    /// Bytes read so far from the process's standard error.
    pub from_stderr: Ghost<Seq<u8>>,
    /// Bytes handed so far to the diagnostic sink.
    pub to_sink: Ghost<Seq<u8>>,
}

impl RelayChannels {
    /// Byte transparency of the whole session so far: each destination has
    /// received exactly what its source produced, in order.
    pub open spec fn wf(self) -> bool {
        &&& self.to_process@ == self.from_peer@
        &&& self.to_peer@ == self.from_process@
        &&& self.to_sink@ == self.from_stderr@
    }

    pub fn new() -> (r: RelayChannels)
        ensures
            r.wf(),
            r.from_peer@ == Seq::<u8>::empty(),
            r.from_process@ == Seq::<u8>::empty(),
            r.from_stderr@ == Seq::<u8>::empty(),
            r.to_peer@ == Seq::<u8>::empty(),
    {
        RelayChannels {
            from_peer: Ghost(Seq::empty()),
            to_process: Ghost(Seq::empty()),
            from_process: Ghost(Seq::empty()),
            to_peer: Ghost(Seq::empty()),
            from_stderr: Ghost(Seq::empty()),
            to_sink: Ghost(Seq::empty()),
        }
    }

    /// Inbound direction: a chunk read from the connection is forwarded,
    /// unchanged and in order, to the process's standard input.
    pub fn forward_inbound(&mut self, chunk: Vec<u8>) -> (r: (Vec<u8>, Destination))
        requires
            old(self).wf(),
        ensures
            final(self).wf(),
            r.0@ == chunk@,
            r.1 == Destination::ProcessStdin,
            final(self).from_peer@ == old(self).from_peer@ + chunk@,
            final(self).to_process@ == old(self).to_process@ + r.0@,
            final(self).from_process@ == old(self).from_process@,
            final(self).to_peer@ == old(self).to_peer@,
            final(self).from_stderr@ == old(self).from_stderr@,
            final(self).to_sink@ == old(self).to_sink@,
    {
        self.from_peer = Ghost(self.from_peer@ + chunk@);
        self.to_process = Ghost(self.to_process@ + chunk@);
        (chunk, Destination::ProcessStdin)
    }

    /// Outbound direction: a chunk read from the process's standard output
    /// is forwarded, unchanged and in order, to the remote peer. Only this
    /// direction ever extends the peer transcript.
    pub fn forward_outbound(&mut self, chunk: Vec<u8>) -> (r: (Vec<u8>, Destination))
        requires
            old(self).wf(),
        ensures
            final(self).wf(),
            r.0@ == chunk@,
            r.1 == Destination::RemotePeer,
            final(self).from_process@ == old(self).from_process@ + chunk@,
            final(self).to_peer@ == old(self).to_peer@ + r.0@,
            final(self).from_peer@ == old(self).from_peer@,
            final(self).to_process@ == old(self).to_process@,
            final(self).from_stderr@ == old(self).from_stderr@,
            final(self).to_sink@ == old(self).to_sink@,
    {
        self.from_process = Ghost(self.from_process@ + chunk@);
        self.to_peer = Ghost(self.to_peer@ + chunk@);
        (chunk, Destination::RemotePeer)
    }

    /// Diagnostics direction: process standard-error output goes to the
    /// local diagnostic sink only; the peer transcript is left untouched,
    /// so stderr is never observed on the network connection.
    pub fn forward_diagnostic(&mut self, chunk: Vec<u8>) -> (r: (Vec<u8>, Destination))
        requires
            old(self).wf(),
        ensures
            final(self).wf(),
            r.0@ == chunk@,
            r.1 == Destination::DiagnosticSink,
            final(self).from_stderr@ == old(self).from_stderr@ + chunk@,
            final(self).to_sink@ == old(self).to_sink@ + r.0@,
            final(self).to_peer@ == old(self).to_peer@,
            final(self).from_peer@ == old(self).from_peer@,
            final(self).to_process@ == old(self).to_process@,
            final(self).from_process@ == old(self).from_process@,
    {
        self.from_stderr = Ghost(self.from_stderr@ + chunk@);
        self.to_sink = Ghost(self.to_sink@ + chunk@);
        (chunk, Destination::DiagnosticSink)
    }
}

} // verus!
