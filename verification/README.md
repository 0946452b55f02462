# dmemcg-booster

Protects device memory for what the user is looking at. The daemon activates
the `dmem` controller throughout the cgroup hierarchy, holds the processes of
the focused window in a dedicated control group, and protects the device memory
of that group as long as the window has the focus.

- `daemon` mode manages control groups and limits, and needs the privileges for
  it.
- `agent` mode runs in the user's session, watches the focused window
  (Hyprland) and reports it to the daemon.
- `standalone` mode does both in one process.

## Layout

`src/` is the library, verified with Verus. It never touches a file, a socket
or a process: what depends on the outside world is written as a machine that
says what it wants to know or to have done and goes on when it is told what
came of it.

| module       | what it decides                                                  |
|--------------|------------------------------------------------------------------|
| `args`       | what the command line says                                       |
| `text`       | cutting texts, reading and writing numbers                       |
| `sample`     | the line that carries a focus sample                             |
| `filter`     | which focused windows are boosted                                |
| `hyprland`   | what Hyprland's answers and events say, and when to ask          |
| `process`    | parents, owners and the tree below a process                     |
| `cgroup`     | control groups, user slices, device memory                       |
| `activation` | where `dmem` is activated and device memory protected            |
| `policy`     | which processes are held in the dedicated control group          |
| `units`      | which units of the service manager are to be seen to             |
| `socket`     | how the daemon's socket is set up and whose samples are taken    |
| `rounds`     | what the daemon, the standalone process and the agent do in turn |

Each module states its contracts over plain sequences and maps, and closes with
the laws that hold across its functions. `app/` is the program around the
library; `tests/` runs the library.
